//! Resolving variables and evaluating conditions against a context.
//!
//! An evaluation makes no query itself. Where it needs the reply of another
//! contract that is not yet known, it stops and says which query to make;
//! once the reply is recorded the evaluation is run again.

use crate::decimal::{decimal_text, int128_of_text, int128_to_string, parse_int128};
use crate::error::{ComparisonError, EvalError, ExpressionError, ResolutionError};
use crate::eval::{evaluate, value_of, Bindings, Tokens};
use crate::json::{get_at, value_at, JSON};
use crate::render::{json_text, text_of};
use crate::state::{Deps, DepsView, QueryReply, QueryRequest, ReplyView, RequestView};
use crate::strings::{path_segments, texts};
use crate::types::{
    Condition, ConditionCompare, ConditionView, ConditionWing, InwardExecuteCtx, Variable,
    VariableView, WingView,
};
use crate::value::{entries_of, lemma_view_object, Node, Value};
use vstd::prelude::*;

verus! {

/// How deep conditions may stand in conditions, and queries in the contracts
/// of queries.
pub const MAX_DEPTH: usize = 32;

/// Why an evaluation ended without a result.
#[derive(Debug, PartialEq, Eq)]
pub enum Stop {
    /// The reply to this query is needed, and not yet known.
    Ask(QueryRequest),
    /// The evaluation failed.
    Fail(EvalError),
}

/// What a [`Stop`] holds.
pub enum StopView {
    Ask(RequestView),
    Fail(EvalError),
}

impl View for Stop {
    type V = StopView;

    open spec fn view(&self) -> StopView {
        match self {
            Stop::Ask(q) => StopView::Ask(q@),
            Stop::Fail(e) => StopView::Fail(*e),
        }
    }
}

/// What the resolving of a variable came to, by what it holds.
pub open spec fn value_outcome(r: Result<Option<Value>, Stop>) -> Result<Option<Node>, StopView> {
    match r {
        Ok(Some(v)) => Ok(Some(v@)),
        Ok(None) => Ok(None),
        Err(stop) => Err(stop@),
    }
}

/// What the evaluation of a condition came to.
pub open spec fn truth_outcome(r: Result<bool, Stop>) -> Result<bool, StopView> {
    match r {
        Ok(b) => Ok(b),
        Err(stop) => Err(stop@),
    }
}

/// The value of a variable. A text stands for itself; a reference for what
/// the context holds at its path, if anything; a query for the reply of the
/// contract to which its contract variable resolves, or for the part of the
/// reply at the result path. A query whose reply is not known stops the
/// evaluation.
pub open spec fn resolved(deps: DepsView, ctx: Node, v: VariableView, depth: nat) -> Result<
    Option<Node>,
    StopView,
>
    decreases depth,
{
    match v {
        VariableView::Raw(s) => Ok(Some(Node::String(s))),
        VariableView::Reference(path) => Ok(get_at(ctx, path_segments(path))),
        VariableView::Query(q) => if depth == 0 {
            Err(StopView::Fail(EvalError::NestingTooDeep))
        } else {
            match resolved(deps, ctx, q.contract, (depth - 1) as nat) {
                Err(stop) => Err(stop),
                Ok(Some(Node::String(address))) => {
                    let request = RequestView { contract: address, query: q.query };
                    if !deps.replies.contains_key(request) {
                        Err(StopView::Ask(request))
                    } else {
                        match deps.replies[request] {
                            ReplyView::Found(reply) => Ok(
                                match q.result {
                                    Some(path) => get_at(reply, path_segments(path)),
                                    None => Some(reply),
                                },
                            ),
                            ReplyView::Absent => Ok(None),
                            ReplyView::Failed => Err(
                                StopView::Fail(
                                    EvalError::Resolution(ResolutionError::TransportFailure),
                                ),
                            ),
                            ReplyView::Malformed => Err(StopView::Fail(EvalError::Decode)),
                        }
                    }
                },
                Ok(_) => Err(
                    StopView::Fail(EvalError::Resolution(ResolutionError::InvalidContractVariable)),
                ),
            }
        },
    }
}

/// The value of a token as the name of a stored variable: nothing where no
/// variable is stored under it.
pub open spec fn token_value(deps: DepsView, ctx: Node, token: Seq<char>) -> Result<
    Option<Node>,
    StopView,
> {
    if deps.variables.contains_key(token) {
        resolved(deps, ctx, deps.variables[token], MAX_DEPTH as nat)
    } else {
        Ok(None)
    }
}

/// The bindings of an expression: `acc`, and for each token from `from` on
/// that has a value as a variable, the integer that the JSON text of the
/// value writes.
pub open spec fn bound_from(
    deps: DepsView,
    ctx: Node,
    tokens: Seq<Seq<char>>,
    from: int,
    acc: Map<Seq<char>, i128>,
) -> Result<Map<Seq<char>, i128>, StopView>
    decreases tokens.len() - from,
{
    if from >= tokens.len() {
        Ok(acc)
    } else {
        match token_value(deps, ctx, tokens[from]) {
            Err(stop) => Err(stop),
            Ok(None) => bound_from(deps, ctx, tokens, from + 1, acc),
            Ok(Some(v)) => match int128_of_text(json_text(v)) {
                Some(i) => bound_from(deps, ctx, tokens, from + 1, acc.insert(tokens[from], i)),
                None => Err(StopView::Fail(EvalError::Expression(ExpressionError::NotAnInteger))),
            },
        }
    }
}

/// The value of an expression. A single token is the value of the variable
/// of that name, or the token itself as a text. Any other list of tokens is
/// evaluated as arithmetic, and the result written in decimal.
pub open spec fn expression_value(deps: DepsView, ctx: Node, tokens: Seq<Seq<char>>) -> Result<
    Node,
    StopView,
> {
    if tokens.len() == 1 {
        match token_value(deps, ctx, tokens[0]) {
            Err(stop) => Err(stop),
            Ok(Some(v)) => Ok(v),
            Ok(None) => Ok(Node::String(tokens[0])),
        }
    } else {
        match bound_from(deps, ctx, tokens, 0, Map::empty()) {
            Err(stop) => Err(stop),
            Ok(bindings) => match value_of(tokens, bindings) {
                Ok(v) => Ok(Node::String(decimal_text(v as int))),
                Err(e) => Err(StopView::Fail(EvalError::Expression(e))),
            },
        }
    }
}

/// `true` or `false`, as written.
pub open spec fn truth_text(b: bool) -> Seq<char> {
    json_text(Node::Bool(b))
}

/// The text that one side of a condition comes to.
pub open spec fn wing_text(deps: DepsView, ctx: Node, w: WingView, depth: nat) -> Result<
    Seq<char>,
    StopView,
>
    decreases depth, 0nat,
{
    match w {
        WingView::Number(v) => Ok(decimal_text(v)),
        WingView::String(s) => Ok(s),
        WingView::Bool(b) => Ok(truth_text(b)),
        WingView::Expression(tokens) => match expression_value(deps, ctx, tokens) {
            Ok(v) => Ok(text_of(v)),
            Err(stop) => Err(stop),
        },
        WingView::Condition(c) => if depth == 0 {
            Err(StopView::Fail(EvalError::NestingTooDeep))
        } else {
            match holds(deps, ctx, *c, (depth - 1) as nat) {
                Ok(b) => Ok(truth_text(b)),
                Err(stop) => Err(stop),
            }
        },
    }
}

/// Whether a condition holds: its left side is evaluated, then its right
/// side, then the two texts are compared.
pub open spec fn holds(deps: DepsView, ctx: Node, c: ConditionView, depth: nat) -> Result<
    bool,
    StopView,
>
    decreases depth, 1nat,
{
    match wing_text(deps, ctx, c.left, depth) {
        Err(stop) => Err(stop),
        Ok(left) => match wing_text(deps, ctx, c.right, depth) {
            Err(stop) => Err(stop),
            Ok(right) => match compared(left, right, c.compare) {
                Ok(b) => Ok(b),
                Err(e) => Err(StopView::Fail(EvalError::Comparison(e))),
            },
        },
    }
}

/// What an execution hands over, as a part of the context.
pub open spec fn inward_node(c: InwardExecuteCtx) -> Node {
    Node::Object(
        seq![
            ("env"@, c.env@),
            ("funds"@, c.funds@),
            ("msg"@, c.msg@),
            ("original_sender"@, Node::String(c.original_sender@)),
            ("sender"@, Node::String(c.sender@)),
        ],
    )
}

/// The context of an evaluation: under `execute_ctx` what the execution
/// handed over, or nothing; under `query_ctx` the environment of the query.
pub open spec fn context_node(env: Node, execute_ctx: Option<InwardExecuteCtx>) -> Node {
    Node::Object(
        seq![
            (
                "execute_ctx"@,
                match execute_ctx {
                    Some(c) => inward_node(c),
                    None => Node::Null,
                },
            ),
            ("query_ctx"@, Node::Object(seq![("env"@, env)])),
        ],
    )
}

/// Makes the context against which references are resolved.
pub fn create_condition_ctx(env: Value, execute_ctx: Option<InwardExecuteCtx>) -> (r: JSON)
    ensures
        r@ == context_node(env@, execute_ctx),
{
    let inward: Value = match execute_ctx {
        Some(c) => {
            let mut entries: Vec<(String, Value)> = Vec::new();
            entries.push(("env".to_owned(), c.env));
            entries.push(("funds".to_owned(), c.funds));
            entries.push(("msg".to_owned(), c.msg));
            entries.push(("original_sender".to_owned(), Value::String(c.original_sender)));
            entries.push(("sender".to_owned(), Value::String(c.sender)));
            proof {
                lemma_view_object(entries);
                assert(entries_of(entries@) =~= inward_node(c)->Object_0);
            }
            Value::Object(entries)
        },
        None => Value::Null,
    };
    let mut query: Vec<(String, Value)> = Vec::new();
    query.push(("env".to_owned(), env));
    proof {
        lemma_view_object(query);
        assert(entries_of(query@) =~= seq![("env"@, env@)]);
    }
    let mut entries: Vec<(String, Value)> = Vec::new();
    entries.push(("execute_ctx".to_owned(), inward));
    entries.push(("query_ctx".to_owned(), Value::Object(query)));
    proof {
        lemma_view_object(entries);
        assert(entries_of(entries@) =~= context_node(env@, execute_ctx)->Object_0);
    }
    JSON::from(Value::Object(entries))
}

/// What a comparator makes of two integers.
pub open spec fn ordered(a: int, b: int, op: ConditionCompare) -> bool {
    match op {
        ConditionCompare::Eq => a == b,
        ConditionCompare::Neq => a != b,
        ConditionCompare::Gt => a > b,
        ConditionCompare::Gte => a >= b,
        ConditionCompare::Lt => a < b,
        ConditionCompare::Lte => a <= b,
    }
}

/// The comparison of two texts. Where both write integers, the integers are
/// compared. Otherwise the texts are, for equality only: an ordering of
/// them is an error.
pub open spec fn compared(left: Seq<char>, right: Seq<char>, op: ConditionCompare) -> Result<
    bool,
    ComparisonError,
> {
    if int128_of_text(left) is Some && int128_of_text(right) is Some {
        Ok(ordered(int128_of_text(left)->Some_0 as int, int128_of_text(right)->Some_0 as int, op))
    } else {
        match op {
            ConditionCompare::Eq => Ok(left == right),
            ConditionCompare::Neq => Ok(left != right),
            _ => Err(ComparisonError::InvalidComparisonForType),
        }
    }
}

/// Compares two texts.
pub fn compare(left: &String, right: &String, op: ConditionCompare) -> (r: Result<
    bool,
    ComparisonError,
>)
    ensures
        r == compared(left@, right@, op),
{
    match (parse_int128(left.as_str()), parse_int128(right.as_str())) {
        (Some(a), Some(b)) => Ok(
            match op {
                ConditionCompare::Eq => a == b,
                ConditionCompare::Neq => a != b,
                ConditionCompare::Gt => a > b,
                ConditionCompare::Gte => a >= b,
                ConditionCompare::Lt => a < b,
                ConditionCompare::Lte => a <= b,
            },
        ),
        _ => match op {
            ConditionCompare::Eq => Ok(*left == *right),
            ConditionCompare::Neq => Ok(!(*left == *right)),
            _ => Err(ComparisonError::InvalidComparisonForType),
        },
    }
}

/// The part of a reply that a query is made for.
fn picked(reply: &Value, result: &Option<String>) -> (r: Option<Value>)
    ensures
        match r {
            Some(v) => Some(v@),
            None => None,
        } == match *result {
            Some(path) => get_at(reply@, path_segments(path@)),
            None => Some(reply@),
        },
{
    match result {
        Some(path) => match value_at(reply, path.as_str()) {
            Some(part) => Some(part.clone()),
            None => None,
        },
        None => Some(reply.clone()),
    }
}

/// Resolves a variable, with `depth` levels of queries left.
fn resolve(deps: &Deps, ctx: &JSON, variable: &Variable, depth: usize) -> (r: Result<
    Option<Value>,
    Stop,
>)
    ensures
        value_outcome(r) == resolved(deps@, ctx@, variable@, depth as nat),
    decreases depth,
{
    match variable {
        Variable::Raw(raw) => Ok(Some(Value::String(raw.clone()))),
        Variable::Reference(reference) => match ctx.get(reference.as_str()) {
            Some(v) => Ok(Some(v.clone())),
            None => Ok(None),
        },
        Variable::Query(query) => {
            if depth == 0 {
                return Err(Stop::Fail(EvalError::NestingTooDeep));
            }
            let address: String = match resolve(deps, ctx, &query.contract, depth - 1) {
                Err(stop) => {
                    return Err(stop);
                },
                Ok(Some(Value::String(address))) => address,
                Ok(_) => {
                    return Err(
                        Stop::Fail(
                            EvalError::Resolution(ResolutionError::InvalidContractVariable),
                        ),
                    );
                },
            };
            let request = QueryRequest { contract: address, query: query.query.clone() };
            match deps.reply(&request) {
                None => Err(Stop::Ask(request)),
                Some(QueryReply::Found(reply)) => Ok(picked(reply, &query.result)),
                Some(QueryReply::Absent) => Ok(None),
                Some(QueryReply::Failed) => Err(
                    Stop::Fail(EvalError::Resolution(ResolutionError::TransportFailure)),
                ),
                Some(QueryReply::Malformed) => Err(Stop::Fail(EvalError::Decode)),
            }
        },
    }
}

/// Resolves a variable against the context.
pub fn evaluate_variable(deps: &Deps, ctx: &JSON, variable: &Variable) -> (r: Result<
    Option<Value>,
    Stop,
>)
    ensures
        value_outcome(r) == resolved(deps@, ctx@, variable@, MAX_DEPTH as nat),
{
    resolve(deps, ctx, variable, MAX_DEPTH)
}

/// Resolves the variable that is stored under the name `token`.
pub fn evaluate_token(deps: &Deps, ctx: &JSON, token: &String) -> (r: Result<Option<Value>, Stop>)
    ensures
        value_outcome(r) == token_value(deps@, ctx@, token@),
{
    match deps.variable(token) {
        Some(variable) => evaluate_variable(deps, ctx, variable),
        None => Ok(None),
    }
}

/// Evaluates an expression to its value.
fn evaluate_expressions(deps: &Deps, ctx: &JSON, tokens: &Tokens) -> (r: Result<Value, Stop>)
    ensures
        match r {
            Ok(v) => Ok(v@),
            Err(stop) => Err(stop@),
        } == expression_value(deps@, ctx@, texts(tokens@)),
{
    let ghost all = texts(tokens@);
    if tokens.len() == 1 {
        assert(all[0] == tokens@[0]@);
        return match evaluate_token(deps, ctx, &tokens[0]) {
            Err(stop) => Err(stop),
            Ok(Some(value)) => Ok(value),
            Ok(None) => Ok(Value::String(tokens[0].clone())),
        };
    }
    let mut variables: Bindings = Bindings::new();
    let mut copy: Tokens = Vec::new();
    let mut i: usize = 0;
    assert(texts(copy@) =~= all.take(0));
    while i < tokens.len()
        invariant
            i <= tokens.len(),
            tokens.len() != 1,
            all == texts(tokens@),
            texts(copy@) == all.take(i as int),
            bound_from(deps@, ctx@, all, 0, Map::empty()) == bound_from(
                deps@,
                ctx@,
                all,
                i as int,
                variables@,
            ),
        decreases tokens.len() - i,
    {
        assert(all[i as int] == tokens@[i as int]@);
        match evaluate_token(deps, ctx, &tokens[i]) {
            Err(stop) => {
                return Err(stop);
            },
            Ok(None) => {},
            Ok(Some(value)) => {
                let text: String = value.to_json_string();
                match parse_int128(text.as_str()) {
                    Some(v) => {
                        variables.insert(tokens[i].as_str(), v);
                    },
                    None => {
                        return Err(
                            Stop::Fail(EvalError::Expression(ExpressionError::NotAnInteger)),
                        );
                    },
                }
            },
        }
        let ghost before = texts(copy@);
        copy.push(tokens[i].clone());
        assert(texts(copy@) =~= before.push(tokens@[i as int]@));
        assert(texts(copy@) =~= all.take(i + 1));
        i = i + 1;
    }
    assert(all.take(tokens.len() as int) =~= all);
    match evaluate(copy, &variables) {
        Ok(v) => Ok(Value::String(int128_to_string(v))),
        Err(e) => Err(Stop::Fail(EvalError::Expression(e))),
    }
}

/// Evaluates one side of a condition to its text.
fn evaluate_wing(deps: &Deps, ctx: &JSON, wing: &ConditionWing, depth: usize) -> (r: Result<
    String,
    Stop,
>)
    ensures
        match r {
            Ok(text) => Ok(text@),
            Err(stop) => Err(stop@),
        } == wing_text(deps@, ctx@, wing@, depth as nat),
    decreases depth, 0nat,
{
    match wing {
        ConditionWing::Number(v) => Ok(int128_to_string(*v)),
        ConditionWing::String(s) => Ok(s.clone()),
        ConditionWing::Bool(b) => Ok(Value::Bool(*b).to_text()),
        ConditionWing::Expression(tokens) => match evaluate_expressions(deps, ctx, tokens) {
            Ok(value) => Ok(value.to_text()),
            Err(stop) => Err(stop),
        },
        ConditionWing::Condition(inner) => {
            if depth == 0 {
                return Err(Stop::Fail(EvalError::NestingTooDeep));
            }
            match check(deps, ctx, inner, depth - 1) {
                Ok(b) => Ok(Value::Bool(b).to_text()),
                Err(stop) => Err(stop),
            }
        },
    }
}

/// Evaluates a condition, with `depth` levels of conditions left.
fn check(deps: &Deps, ctx: &JSON, condition: &Condition, depth: usize) -> (r: Result<bool, Stop>)
    ensures
        truth_outcome(r) == holds(deps@, ctx@, condition@, depth as nat),
    decreases depth, 1nat,
{
    let left: String = match evaluate_wing(deps, ctx, &condition.left, depth) {
        Ok(text) => text,
        Err(stop) => {
            return Err(stop);
        },
    };
    let right: String = match evaluate_wing(deps, ctx, &condition.right, depth) {
        Ok(text) => text,
        Err(stop) => {
            return Err(stop);
        },
    };
    match compare(&left, &right, condition.compare) {
        Ok(b) => Ok(b),
        Err(e) => Err(Stop::Fail(EvalError::Comparison(e))),
    }
}

/// Evaluates a condition against the context.
pub fn evaluate_condition(deps: &Deps, ctx: &JSON, condition: Condition) -> (r: Result<bool, Stop>)
    ensures
        truth_outcome(r) == holds(deps@, ctx@, condition@, MAX_DEPTH as nat),
{
    check(deps, ctx, &condition, MAX_DEPTH)
}

/// Evaluates the stored condition against the context.
pub fn evaluate_default_condition(deps: &Deps, ctx: &JSON) -> (r: Result<bool, Stop>)
    requires
        deps@.condition is Some,
    ensures
        truth_outcome(r) == holds(deps@, ctx@, deps@.condition->Some_0, MAX_DEPTH as nat),
{
    check(deps, ctx, deps.condition().unwrap(), MAX_DEPTH)
}

} // verus!
