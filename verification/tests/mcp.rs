use agentcode::mcp::{
    default_budget, default_path, error_response, finish_get_map, handle_request, invalid_json_response,
    success_response, BudgetParam, GetMapParams, RequestStep,
};
use serde_json::Value;

fn code_of(line: &str) -> Value {
    let response: Value = serde_json::from_str(line).unwrap();
    response["error"]["code"].clone()
}

fn params(path: &str, budget: BudgetParam) -> Result<GetMapParams, String> {
    Ok(GetMapParams { path: path.to_string(), budget })
}

#[test]
fn returns_error_for_unknown_method() {
    let step = handle_request("nope", &Some("1".to_string()), params(".", default_budget()));
    match step {
        RequestStep::Reply(Some(line)) => assert_eq!(code_of(&line), -32601),
        _ => panic!("expected an error reply"),
    }
}

#[test]
fn returns_error_for_invalid_json() {
    let line = invalid_json_response("key must be a string at line 1 column 2");
    assert_eq!(code_of(&line), -32700);
}

#[test]
fn returns_error_for_invalid_budget_param() {
    let step = handle_request("get_map", &Some("1".to_string()), params(".", BudgetParam::String("bad".to_string())));
    match step {
        RequestStep::Reply(Some(line)) => assert_eq!(code_of(&line), -32602),
        _ => panic!("expected an error reply"),
    }
}

#[test]
fn notification_request_produces_no_response() {
    let step = handle_request("get_map", &None, params(".", default_budget()));
    match step {
        RequestStep::BuildMap { path, budget } => {
            assert_eq!(path, ".");
            assert_eq!(budget.max_tokens(), 32000);
        }
        _ => panic!("expected to build the map"),
    }
    assert!(finish_get_map(&None, Ok("{}".to_string())).is_none());
    assert!(finish_get_map(&None, Err("failed".to_string())).is_none());
}

#[test]
fn answers_have_their_members_in_name_order() {
    assert_eq!(
        error_response(&Some("7".to_string()), -32601, "unknown method: x"),
        "{\"error\":{\"code\":-32601,\"message\":\"unknown method: x\"},\"id\":7,\"jsonrpc\":\"2.0\"}"
    );
    assert_eq!(
        error_response(&None, -32700, "bad"),
        "{\"error\":{\"code\":-32700,\"message\":\"bad\"},\"id\":null,\"jsonrpc\":\"2.0\"}"
    );
    assert_eq!(success_response(&Some("\"a\"".to_string()), "{}"), "{\"id\":\"a\",\"jsonrpc\":\"2.0\",\"result\":{}}");
}

#[test]
fn finished_map_is_wrapped_as_a_string() {
    let line = finish_get_map(&Some("1".to_string()), Ok("{\"root\":\"/r\",\"files\":[]}".to_string())).unwrap();
    let response: Value = serde_json::from_str(&line).unwrap();
    assert_eq!(response["id"], 1);
    assert_eq!(response["result"]["map"], "{\"root\":\"/r\",\"files\":[]}");
    let failed = finish_get_map(&Some("1".to_string()), Err("failed to resolve root path: x".to_string())).unwrap();
    let response: Value = serde_json::from_str(&failed).unwrap();
    assert_eq!(response["error"]["code"], -32000);
    assert_eq!(response["error"]["message"], "failed to resolve root path: x");
}

#[test]
fn invalid_params_and_unknown_methods_are_reported() {
    match handle_request("get_map", &Some("2".to_string()), Err("missing field".to_string())) {
        RequestStep::Reply(Some(line)) => {
            let v: Value = serde_json::from_str(&line).unwrap();
            assert_eq!(v["error"]["code"], -32602);
            assert_eq!(v["error"]["message"], "invalid params: missing field");
        }
        _ => panic!("expected an error reply"),
    }
    match handle_request("other", &None, params(".", default_budget())) {
        RequestStep::Reply(None) => {}
        _ => panic!("a notification gets no answer"),
    }
}

#[test]
fn budget_params_parse_as_text_or_number() {
    assert_eq!(BudgetParam::String("8k".to_string()).parse().unwrap().max_tokens(), 8000);
    assert_eq!(BudgetParam::Integer(32000).parse().unwrap().max_tokens(), 32000);
    assert_eq!(BudgetParam::Integer(0).parse().unwrap_err(), "budget must be greater than zero");
    assert_eq!(default_path(), ".");
}

#[test]
fn get_map_is_answered_with_the_pruned_map() {
    let step = handle_request("get_map", &Some("7".to_string()), params("/proj", BudgetParam::String(" 8K ".to_string())));
    let (path, budget) = match step {
        RequestStep::BuildMap { path, budget } => (path, budget),
        _ => panic!("expected a map to be built"),
    };
    assert_eq!(path, "/proj");
    assert_eq!(budget.max_tokens(), 8000);
    let scanned = vec![agentcode::models::FileMap {
        path: "src/lib.rs".to_string(),
        symbols: agentcode::indexer::index_source("rs", "pub fn alpha() {}\n"),
    }];
    let output = agentcode::map::build_context_map(path, scanned, budget);
    let map = agentcode::json::serialize_map(&output.pruned_map);
    let line = finish_get_map(&Some("7".to_string()), Ok(map.clone())).unwrap();
    let response: Value = serde_json::from_str(&line).unwrap();
    assert_eq!(response["jsonrpc"], "2.0");
    assert_eq!(response["id"], 7);
    assert_eq!(response["result"]["map"], Value::String(map.clone()));
    let inner: Value = serde_json::from_str(&map).unwrap();
    assert_eq!(inner["files"][0]["symbols"][0]["name"], "alpha");
}
