//! The decisions of the line-delimited JSON-RPC server: which method a
//! request calls, which error it is answered with, and the JSON text of the
//! answers. Reading and writing lines, and parsing the requests, stand
//! outside the library.
use vstd::prelude::*;
use crate::budgeter::{law_plain_budget, parse_budget, pruned_map, Budget};
use crate::json::map_json;
use crate::map::full_context_map;
use crate::models::FileMapView;
use crate::json::{json_i64, json_int, json_quote, json_string};
use crate::text::{decimal, digit_char, lemma_decimal};

verus! {

/// JSON-RPC code of a request that is not JSON.
pub const PARSE_ERROR: i64 = -32700;

/// JSON-RPC code of a call of an unknown method.
pub const METHOD_NOT_FOUND: i64 = -32601;

/// JSON-RPC code of a call with parameters that are not valid.
pub const INVALID_PARAMS: i64 = -32602;

/// JSON-RPC code of a call that failed while it ran.
pub const SERVER_ERROR: i64 = -32000;

/// The budget parameter of `get_map`: a text such as `"8k"`, or a number.
#[derive(Debug, Clone)]
pub enum BudgetParam {
    String(String),
    Integer(usize),
}

/// Mathematical value of a [`BudgetParam`].
pub enum BudgetParamView {
    String(Seq<char>),
    Integer(usize),
}

impl View for BudgetParam {
    type V = BudgetParamView;

    open spec fn view(&self) -> BudgetParamView {
        match self {
            BudgetParam::String(s) => BudgetParamView::String(s@),
            BudgetParam::Integer(n) => BudgetParamView::Integer(*n),
        }
    }
}

/// What a budget parameter denotes: a text is read as a budget, a number as
/// the budget its decimal digits spell.
pub open spec fn param_budget(p: BudgetParamView) -> Result<usize, Seq<char>> {
    match p {
        BudgetParamView::String(s) => parse_budget(s),
        BudgetParamView::Integer(n) => parse_budget(decimal(n as nat)),
    }
}

fn digit_str(d: usize) -> (s: &'static str)
    requires
        d < 10,
    ensures
        s@ == seq![digit_char(d as nat)],
{
    proof {
        reveal_strlit("0");
        reveal_strlit("1");
        reveal_strlit("2");
        reveal_strlit("3");
        reveal_strlit("4");
        reveal_strlit("5");
        reveal_strlit("6");
        reveal_strlit("7");
        reveal_strlit("8");
        reveal_strlit("9");
    }
    let s = if d == 0 {
        "0"
    } else if d == 1 {
        "1"
    } else if d == 2 {
        "2"
    } else if d == 3 {
        "3"
    } else if d == 4 {
        "4"
    } else if d == 5 {
        "5"
    } else if d == 6 {
        "6"
    } else if d == 7 {
        "7"
    } else if d == 8 {
        "8"
    } else {
        "9"
    };
    assert(s@ =~= seq![digit_char(d as nat)]);
    s
}

/// The decimal digits of `n`, as `usize::to_string` writes them.
pub fn decimal_string(n: usize) -> (s: String)
    ensures
        s@ == decimal(n as nat),
    decreases n,
{
    if n < 10 {
        String::from_str(digit_str(n))
    } else {
        let mut s = decimal_string(n / 10);
        s.append(digit_str(n % 10));
        s
    }
}

impl BudgetParam {
    /// The budget that the parameter denotes.
    pub fn parse(&self) -> (res: Result<Budget, String>)
        ensures
            match res {
                Ok(b) => param_budget(self@) == Ok::<usize, Seq<char>>(b.tokens()),
                Err(e) => param_budget(self@) == Err::<usize, Seq<char>>(e@),
            },
    {
        match self {
            BudgetParam::String(value) => Budget::parse(value.as_str()),
            BudgetParam::Integer(value) => Budget::parse(decimal_string(*value).as_str()),
        }
    }
}

/// The path that `get_map` maps when none is given.
pub fn default_path() -> (p: String)
    ensures
        p@ == "."@,
{
    String::from_str(".")
}

/// The budget that `get_map` uses when none is given: 32000 tokens.
pub fn default_budget() -> (b: BudgetParam)
    ensures
        b@ == BudgetParamView::Integer(32000),
{
    BudgetParam::Integer(32000)
}

/// The parameters of `get_map`.
#[derive(Debug)]
pub struct GetMapParams {
    pub path: String,
    pub budget: BudgetParam,
}

/// The JSON text of an id, `null` where there is none.
pub open spec fn id_json(id: Option<Seq<char>>) -> Seq<char> {
    match id {
        Some(t) => t,
        None => "null"@,
    }
}

pub open spec fn opt_text(id: Option<String>) -> Option<Seq<char>> {
    match id {
        Some(t) => Some(t@),
        None => None,
    }
}

/// The answer to a request that failed: members in the order of their
/// names, as a JSON object of `serde_json` without `preserve_order` has them.
pub open spec fn spec_error_response(id: Option<Seq<char>>, code: int, message: Seq<char>) -> Seq<char> {
    "{\"error\":{\"code\":"@ + json_int(code) + ",\"message\":"@ + json_quote(message) + "},\"id\":"@
        + id_json(id) + ",\"jsonrpc\":\"2.0\"}"@
}

/// The answer to a request that succeeded, with the JSON text of its result.
pub open spec fn spec_success_response(id: Option<Seq<char>>, result: Seq<char>) -> Seq<char> {
    "{\"id\":"@ + id_json(id) + ",\"jsonrpc\":\"2.0\",\"result\":"@ + result + "}"@
}

/// The result of `get_map`: the map's JSON text as a JSON string.
pub open spec fn map_result(map: Seq<char>) -> Seq<char> {
    "{\"map\":"@ + json_quote(map) + "}"@
}

fn id_text(id: &Option<String>) -> (t: String)
    ensures
        t@ == id_json(opt_text(*id)),
{
    match id {
        Some(t) => t.clone(),
        None => String::from_str("null"),
    }
}

/// The answer to a request that failed. `id` is the JSON text of the
/// request's id.
pub fn error_response(id: &Option<String>, code: i64, message: &str) -> (r: String)
    ensures
        r@ == spec_error_response(opt_text(*id), code as int, message@),
{
    let mut out = String::from_str("{\"error\":{\"code\":");
    out.append(json_i64(code).as_str());
    out.append(",\"message\":");
    out.append(json_string(message).as_str());
    out.append("},\"id\":");
    out.append(id_text(id).as_str());
    out.append(",\"jsonrpc\":\"2.0\"}");
    out
}

/// The answer to a request that succeeded. `id` is the JSON text of the
/// request's id, `result` that of its result.
pub fn success_response(id: &Option<String>, result: &str) -> (r: String)
    ensures
        r@ == spec_success_response(opt_text(*id), result@),
{
    let mut out = String::from_str("{\"id\":");
    out.append(id_text(id).as_str());
    out.append(",\"jsonrpc\":\"2.0\",\"result\":");
    out.append(result);
    out.append("}");
    out
}

/// The answer to a line that is not a JSON-RPC request; `detail` is what
/// the JSON parser said.
pub fn invalid_json_response(detail: &str) -> (r: String)
    ensures
        r@ == spec_error_response(None, PARSE_ERROR as int, "invalid JSON: "@ + detail@),
{
    let mut message = String::from_str("invalid JSON: ");
    message.append(detail);
    error_response(&None, PARSE_ERROR, message.as_str())
}

/// What the server does next with a request.
pub enum RequestStep {
    /// Answer with this line, or with nothing.
    Reply(Option<String>),
    /// Map the project at `path` to `budget`, then call [`finish_get_map`].
    BuildMap { path: String, budget: Budget },
}

/// Mathematical value of a [`RequestStep`].
pub enum StepView {
    Reply(Option<Seq<char>>),
    BuildMap(Seq<char>, usize),
}

pub open spec fn step_view(s: RequestStep) -> StepView {
    match s {
        RequestStep::Reply(r) => StepView::Reply(opt_text(r)),
        RequestStep::BuildMap { path, budget } => StepView::BuildMap(path@, budget.tokens()),
    }
}

/// An error answer, or none for a notification (a request without id).
pub open spec fn error_or_silence(id: Option<Seq<char>>, code: int, message: Seq<char>) -> Option<Seq<char>> {
    match id {
        None => None,
        Some(_) => Some(spec_error_response(id, code, message)),
    }
}

/// What a request calls for: `get_map` with valid parameters maps a
/// project; a call of another method is answered "unknown method", invalid
/// parameters and budgets "invalid params"; notifications get no answer.
/// `params` is what parsing the parameters of `get_map` gave (missing ones
/// taking their defaults), or the parser's message.
pub open spec fn spec_handle_request(
    method: Seq<char>,
    id: Option<Seq<char>>,
    params: Result<(Seq<char>, BudgetParamView), Seq<char>>,
) -> StepView {
    if method == "get_map"@ {
        match params {
            Err(e) => StepView::Reply(error_or_silence(id, INVALID_PARAMS as int, "invalid params: "@ + e)),
            Ok((path, budget)) => match param_budget(budget) {
                Err(e) => StepView::Reply(error_or_silence(id, INVALID_PARAMS as int, e)),
                Ok(tokens) => StepView::BuildMap(path, tokens),
            },
        }
    } else {
        StepView::Reply(error_or_silence(id, METHOD_NOT_FOUND as int, "unknown method: "@ + method))
    }
}

pub open spec fn params_view(p: Result<GetMapParams, String>) -> Result<(Seq<char>, BudgetParamView), Seq<char>> {
    match p {
        Ok(g) => Ok((g.path@, g.budget@)),
        Err(e) => Err(e@),
    }
}

fn error_or_silence_exec(id: &Option<String>, code: i64, message: &str) -> (r: Option<String>)
    ensures
        opt_text(r) == error_or_silence(opt_text(*id), code as int, message@),
{
    match id {
        None => None,
        Some(_) => Some(error_response(id, code, message)),
    }
}

/// Decides what a request calls for; see [`spec_handle_request`].
pub fn handle_request(method: &str, id: &Option<String>, params: Result<GetMapParams, String>) -> (r: RequestStep)
    ensures
        step_view(r) == spec_handle_request(method@, opt_text(*id), params_view(params)),
{
    let get_map = String::from_str("get_map");
    if String::from_str(method) == get_map {
        match params {
            Err(e) => {
                let mut message = String::from_str("invalid params: ");
                message.append(e.as_str());
                RequestStep::Reply(error_or_silence_exec(id, INVALID_PARAMS, message.as_str()))
            },
            Ok(p) => match p.budget.parse() {
                Err(e) => RequestStep::Reply(error_or_silence_exec(id, INVALID_PARAMS, e.as_str())),
                Ok(budget) => RequestStep::BuildMap { path: p.path, budget },
            },
        }
    } else {
        let mut message = String::from_str("unknown method: ");
        message.append(method);
        RequestStep::Reply(error_or_silence_exec(id, METHOD_NOT_FOUND, message.as_str()))
    }
}

/// The answer once the map was made: its JSON text as the result where
/// mapping succeeded, else a server error with the failure's message; no
/// answer to a notification.
pub open spec fn spec_finish_get_map(id: Option<Seq<char>>, outcome: Result<Seq<char>, Seq<char>>) -> Option<Seq<char>> {
    match outcome {
        Ok(map) => match id {
            None => None,
            Some(_) => Some(spec_success_response(id, map_result(map))),
        },
        Err(e) => error_or_silence(id, SERVER_ERROR as int, e),
    }
}

pub open spec fn outcome_view(o: Result<String, String>) -> Result<Seq<char>, Seq<char>> {
    match o {
        Ok(m) => Ok(m@),
        Err(e) => Err(e@),
    }
}

/// Answers a `get_map` call once the map was made (`Ok` with the JSON text
/// of the pruned map) or failed (`Err` with the failure's message).
pub fn finish_get_map(id: &Option<String>, outcome: Result<String, String>) -> (r: Option<String>)
    ensures
        opt_text(r) == spec_finish_get_map(opt_text(*id), outcome_view(outcome)),
{
    match outcome {
        Ok(map) => match id {
            None => None,
            Some(_) => {
                let mut result = String::from_str("{\"map\":");
                result.append(json_string(map.as_str()).as_str());
                result.append("}");
                Some(success_response(id, result.as_str()))
            },
        },
        Err(e) => error_or_silence_exec(id, SERVER_ERROR, e.as_str()),
    }
}


/// A budget given as a non-zero number is a budget of that many tokens.
pub proof fn law_number_budget(n: usize)
    requires
        n > 0,
    ensures
        param_budget(BudgetParamView::Integer(n)) == Ok::<usize, Seq<char>>(n),
{
    lemma_decimal(n as nat);
    law_plain_budget(decimal(n as nat));
}

/// A notification (a request without id) is never answered, whatever it
/// calls and however it ends; a request with an id is always answered, at
/// once or once the map is made.
pub proof fn law_answers(
    method: Seq<char>,
    id: Option<Seq<char>>,
    params: Result<(Seq<char>, BudgetParamView), Seq<char>>,
    outcome: Result<Seq<char>, Seq<char>>,
)
    ensures
        id is None ==> !(spec_handle_request(method, id, params) matches StepView::Reply(Some(_))),
        id is None ==> spec_finish_get_map(id, outcome) is None,
        id is Some ==> !(spec_handle_request(method, id, params) matches StepView::Reply(None)),
        id is Some ==> spec_finish_get_map(id, outcome) is Some,
{
}


/// A `get_map` request with an id and a budget that reads as `tokens` is
/// answered with the map that the budget leaves of the project: the server
/// first maps the project at the request's path to `tokens`, and once the
/// scanned files of the project at `root` are in, the answer is a success
/// whose result holds, as a JSON string, the JSON text of the whole map
/// pruned to `tokens`.
pub proof fn law_get_map_answer(
    id: Seq<char>,
    path: Seq<char>,
    budget: BudgetParamView,
    tokens: usize,
    root: Seq<char>,
    scanned: Seq<FileMapView>,
)
    requires
        param_budget(budget) == Ok::<usize, Seq<char>>(tokens),
    ensures
        spec_handle_request("get_map"@, Some(id), Ok((path, budget))) == StepView::BuildMap(path, tokens),
        spec_finish_get_map(Some(id), Ok(map_json(pruned_map(full_context_map(root, scanned), tokens))))
            == Some(
            spec_success_response(
                Some(id),
                map_result(map_json(pruned_map(full_context_map(root, scanned), tokens))),
            ),
        ),
{
}

} // verus!
