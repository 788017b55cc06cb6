use andromeda_std::common::encode_binary;
use conditional_ado::error::{ComparisonError, EvalError, ExpressionError, ResolutionError};
use conditional_ado::execute::{add_condition, add_variable};
use conditional_ado::json::JSON;
use conditional_ado::query::{
    compare, create_condition_ctx, evaluate_condition, evaluate_default_condition,
    evaluate_token, evaluate_variable, Stop, MAX_DEPTH,
};
use conditional_ado::state::{Deps, QueryReply, QueryRequest};
use conditional_ado::types::{
    Condition, ConditionCompare, ConditionWing, ExternalQuery, ExternalQueryMsg,
    ExternalQueryRawMsg, ExternalQuerySmartMsg, InwardExecuteCtx, Variable,
};
use conditional_ado::value::Value;
use cosmwasm_std::testing::mock_env;
use cosmwasm_std::{Addr, Binary, Coin, Env};

fn key_text(key: serde_cw_value::Value) -> String {
    match key {
        serde_cw_value::Value::String(s) => s,
        other => panic!("a key that is no text: {:?}", other),
    }
}

fn library_value(v: serde_cw_value::Value) -> Value {
    match v {
        serde_cw_value::Value::Bool(b) => Value::Bool(b),
        serde_cw_value::Value::U8(n) => Value::Integer(n.into()),
        serde_cw_value::Value::U16(n) => Value::Integer(n.into()),
        serde_cw_value::Value::U32(n) => Value::Integer(n.into()),
        serde_cw_value::Value::U64(n) => Value::Integer(n.into()),
        serde_cw_value::Value::I8(n) => Value::Integer(n.into()),
        serde_cw_value::Value::I16(n) => Value::Integer(n.into()),
        serde_cw_value::Value::I32(n) => Value::Integer(n.into()),
        serde_cw_value::Value::I64(n) => Value::Integer(n.into()),
        serde_cw_value::Value::Char(c) => Value::String(c.to_string()),
        serde_cw_value::Value::String(s) => Value::String(s),
        serde_cw_value::Value::Unit => Value::Null,
        serde_cw_value::Value::Option(None) => Value::Null,
        serde_cw_value::Value::Option(Some(inner)) => library_value(*inner),
        serde_cw_value::Value::Newtype(inner) => library_value(*inner),
        serde_cw_value::Value::Seq(items) => {
            Value::Sequence(items.into_iter().map(library_value).collect())
        }
        serde_cw_value::Value::Map(entries) => Value::Object(
            entries
                .into_iter()
                .map(|(k, v)| (key_text(k), library_value(v)))
                .collect(),
        ),
        serde_cw_value::Value::Bytes(bytes) => {
            Value::Sequence(bytes.into_iter().map(|b| Value::Integer(b.into())).collect())
        }
    }
}

fn decoded(bytes: &[u8]) -> Value {
    let parsed: serde_cw_value::Value = serde_json_wasm::from_slice(bytes).unwrap();
    library_value(parsed)
}

fn env_value(env: &Env) -> Value {
    decoded(&serde_json_wasm::to_vec(env).unwrap())
}

struct Inward {
    env: Env,
    msg: Binary,
    funds: Vec<Coin>,
    sender: Addr,
    original_sender: Addr,
}

fn inward(ctx: Inward) -> InwardExecuteCtx {
    InwardExecuteCtx {
        env: env_value(&ctx.env),
        msg: decoded(ctx.msg.as_slice()),
        funds: decoded(&serde_json_wasm::to_vec(&ctx.funds).unwrap()),
        sender: ctx.sender.into_string(),
        original_sender: ctx.original_sender.into_string(),
    }
}

fn tokens(list: &[&str]) -> Vec<String> {
    list.iter().map(|t| t.to_string()).collect()
}

fn text(s: &str) -> Value {
    Value::String(s.to_string())
}

fn plain_ctx() -> JSON {
    create_condition_ctx(env_value(&mock_env()), None)
}

#[test]
fn test_evaluate_condition() {
    let deps = Deps::new();
    let env = mock_env();
    let condition_ctx = create_condition_ctx(env_value(&env), None);
    let condition = Condition {
        left: ConditionWing::String("10".to_string()),
        right: ConditionWing::Number(10),
        compare: ConditionCompare::Eq,
    };
    let res = evaluate_condition(&deps, &condition_ctx, condition);
    assert_eq!(res, Ok(true));
}

#[test]
fn test_evaluate_condition_variable() {
    let mut deps = Deps::new();
    let env = mock_env();
    let ctx = Inward {
        env: env.clone(),
        msg: encode_binary(&"".to_string()).unwrap(),
        funds: vec![],
        sender: Addr::unchecked("sender"),
        original_sender: Addr::unchecked("original_sender"),
    };
    let condition_ctx = create_condition_ctx(env_value(&env), Some(inward(ctx)));

    let variable = Variable::Reference("execute_ctx.env.block.height".to_string());
    add_variable(&mut deps, &variable, "variable");

    let condition = Condition {
        left: ConditionWing::Expression(vec![
            "variable".to_string(),
            "+".to_string(),
            "10000000".to_string(),
        ]),
        right: ConditionWing::Expression(vec!["variable".to_string()]),
        compare: ConditionCompare::Gt,
    };
    let res = evaluate_condition(&deps, &condition_ctx, condition);
    assert_eq!(res, Ok(true));
}

#[test]
fn test_evaluate_condition_variable_mismatch_type() {
    let mut deps = Deps::new();
    let env = mock_env();
    let ctx = Inward {
        env: env.clone(),
        msg: encode_binary(&"".to_string()).unwrap(),
        funds: vec![],
        sender: Addr::unchecked("sender"),
        original_sender: Addr::unchecked("original_sender"),
    };
    let condition_ctx = create_condition_ctx(env_value(&env), Some(inward(ctx)));

    let variable = Variable::Reference("execute_ctx.sender".to_string());
    add_variable(&mut deps, &variable, "variable");

    let condition = Condition {
        left: ConditionWing::Expression(vec![
            "10".to_string(),
            "+".to_string(),
            "10000000".to_string(),
        ]),
        right: ConditionWing::Expression(vec!["variable".to_string()]),
        compare: ConditionCompare::Eq,
    };
    let res = evaluate_condition(&deps, &condition_ctx, condition);
    assert_eq!(res, Ok(false));
}

#[test]
fn the_context_holds_what_it_was_made_of() {
    let env = mock_env();
    let ctx = Inward {
        env: env.clone(),
        msg: encode_binary(&vec![("action", 7)]).unwrap(),
        funds: vec![Coin::new(5, "uandr")],
        sender: Addr::unchecked("sender"),
        original_sender: Addr::unchecked("original_sender"),
    };
    let condition_ctx = create_condition_ctx(env_value(&env), Some(inward(ctx)));
    assert_eq!(condition_ctx.get("execute_ctx.sender"), Some(&text("sender")));
    assert_eq!(
        condition_ctx.get("execute_ctx.original_sender"),
        Some(&text("original_sender"))
    );
    assert_eq!(
        condition_ctx.get("execute_ctx.env.block.height"),
        Some(&Value::Integer(12345))
    );
    assert_eq!(
        condition_ctx.get("query_ctx.env.block.chain_id"),
        Some(&text("cosmos-testnet-14002"))
    );
    assert_eq!(
        condition_ctx.get("execute_ctx.funds.0.denom"),
        Some(&text("uandr"))
    );
    assert_eq!(
        condition_ctx.get("execute_ctx.funds.0.amount"),
        Some(&text("5"))
    );
    assert_eq!(condition_ctx.get("execute_ctx.msg.0.0"), Some(&text("action")));
    assert_eq!(condition_ctx.get("execute_ctx.msg.0.1"), Some(&Value::Integer(7)));

    let without = create_condition_ctx(env_value(&env), None);
    assert_eq!(without.get("execute_ctx"), Some(&Value::Null));
    assert_eq!(without.get("execute_ctx.sender"), None);
    assert_eq!(
        without.get("query_ctx.env.contract.address"),
        Some(&text("cosmos2contract"))
    );
}

#[test]
fn the_context_is_one_object_of_two_entries() {
    let ctx = create_condition_ctx(Value::Integer(1), None);
    assert_eq!(
        ctx.value(),
        &Value::Object(vec![
            ("execute_ctx".to_string(), Value::Null),
            (
                "query_ctx".to_string(),
                Value::Object(vec![("env".to_string(), Value::Integer(1))])
            ),
        ])
    );
    let full = create_condition_ctx(
        Value::Integer(1),
        Some(InwardExecuteCtx {
            env: Value::Integer(2),
            msg: Value::Integer(3),
            funds: Value::Integer(4),
            sender: "s".to_string(),
            original_sender: "o".to_string(),
        }),
    );
    assert_eq!(
        full.to_json_string(),
        r#"{"execute_ctx":{"env":2,"funds":4,"msg":3,"original_sender":"o","sender":"s"},"query_ctx":{"env":1}}"#
    );
}

#[test]
fn a_reference_reads_any_height() {
    for height in [0u64, 1, 12345, u64::MAX] {
        let mut env = mock_env();
        env.block.height = height;
        let ctx = Inward {
            env: env.clone(),
            msg: encode_binary(&"".to_string()).unwrap(),
            funds: vec![],
            sender: Addr::unchecked("sender"),
            original_sender: Addr::unchecked("original_sender"),
        };
        let condition_ctx = create_condition_ctx(env_value(&env), Some(inward(ctx)));
        let mut deps = Deps::new();
        add_variable(
            &mut deps,
            &Variable::Reference("execute_ctx.env.block.height".to_string()),
            "variable",
        );
        let condition = Condition {
            left: ConditionWing::Expression(tokens(&["variable", "+", "10000000"])),
            right: ConditionWing::Expression(tokens(&["variable"])),
            compare: ConditionCompare::Gt,
        };
        assert_eq!(evaluate_condition(&deps, &condition_ctx, condition), Ok(true));
    }
}

#[test]
fn texts_that_write_integers_are_compared_as_integers() {
    let a = |s: &str| s.to_string();
    assert_eq!(compare(&a("10"), &a("10"), ConditionCompare::Eq), Ok(true));
    assert_eq!(compare(&a("+10"), &a("010"), ConditionCompare::Eq), Ok(true));
    assert_eq!(compare(&a("+10"), &a("010"), ConditionCompare::Neq), Ok(false));
    assert_eq!(compare(&a("9"), &a("10"), ConditionCompare::Lt), Ok(true));
    assert_eq!(compare(&a("9"), &a("10"), ConditionCompare::Gt), Ok(false));
    assert_eq!(compare(&a("-1"), &a("-2"), ConditionCompare::Gt), Ok(true));
    assert_eq!(compare(&a("-0"), &a("0"), ConditionCompare::Gte), Ok(true));
    assert_eq!(compare(&a("5"), &a("5"), ConditionCompare::Lte), Ok(true));
    assert_eq!(compare(&a("5"), &a("6"), ConditionCompare::Gte), Ok(false));
    let max = i128::MAX.to_string();
    let min = i128::MIN.to_string();
    assert_eq!(compare(&min, &max, ConditionCompare::Lt), Ok(true));
    assert_eq!(compare(&max, &max, ConditionCompare::Eq), Ok(true));
}

#[test]
fn other_texts_are_compared_for_equality_only() {
    let a = |s: &str| s.to_string();
    assert_eq!(compare(&a("abc"), &a("abc"), ConditionCompare::Eq), Ok(true));
    assert_eq!(compare(&a("abc"), &a("abd"), ConditionCompare::Eq), Ok(false));
    assert_eq!(compare(&a("abc"), &a("abd"), ConditionCompare::Neq), Ok(true));
    assert_eq!(compare(&a("10"), &a("ten"), ConditionCompare::Eq), Ok(false));
    assert_eq!(compare(&a("10"), &a("1 0"), ConditionCompare::Neq), Ok(true));
    for op in [
        ConditionCompare::Gt,
        ConditionCompare::Gte,
        ConditionCompare::Lt,
        ConditionCompare::Lte,
    ] {
        assert_eq!(
            compare(&a("abc"), &a("abd"), op),
            Err(ComparisonError::InvalidComparisonForType)
        );
        assert_eq!(
            compare(&a("10"), &a("ten"), op),
            Err(ComparisonError::InvalidComparisonForType)
        );
        assert_eq!(
            compare(&a(""), &a("1"), op),
            Err(ComparisonError::InvalidComparisonForType)
        );
    }
    // one beyond the range of 128 bits writes no integer
    let beyond = "170141183460469231731687303715884105728";
    assert_eq!(
        compare(&a(beyond), &a("1"), ConditionCompare::Gt),
        Err(ComparisonError::InvalidComparisonForType)
    );
    assert_eq!(compare(&a(beyond), &a(beyond), ConditionCompare::Eq), Ok(true));
}

#[test]
fn an_ordering_of_texts_is_an_error() {
    let deps = Deps::new();
    let condition = Condition {
        left: ConditionWing::String("apple".to_string()),
        right: ConditionWing::String("pear".to_string()),
        compare: ConditionCompare::Gt,
    };
    assert_eq!(
        evaluate_condition(&deps, &plain_ctx(), condition),
        Err(Stop::Fail(EvalError::Comparison(
            ComparisonError::InvalidComparisonForType
        )))
    );
}

#[test]
fn each_kind_of_wing_comes_to_its_text() {
    let deps = Deps::new();
    let ctx = plain_ctx();
    let holds = |left: ConditionWing, right: ConditionWing| {
        evaluate_condition(
            &deps,
            &ctx,
            Condition { left, right, compare: ConditionCompare::Eq },
        )
    };
    assert_eq!(
        holds(ConditionWing::Bool(true), ConditionWing::String("true".to_string())),
        Ok(true)
    );
    assert_eq!(
        holds(ConditionWing::Bool(false), ConditionWing::String("false".to_string())),
        Ok(true)
    );
    assert_eq!(
        holds(ConditionWing::Number(-42), ConditionWing::String("-42".to_string())),
        Ok(true)
    );
    assert_eq!(
        holds(ConditionWing::Number(i128::MIN), ConditionWing::String(i128::MIN.to_string())),
        Ok(true)
    );
    assert_eq!(
        holds(
            ConditionWing::Expression(tokens(&["2", "*", "(", "3", "+", "4", ")"])),
            ConditionWing::Number(14)
        ),
        Ok(true)
    );
    assert_eq!(
        holds(
            ConditionWing::Expression(tokens(&["unknown"])),
            ConditionWing::String("unknown".to_string())
        ),
        Ok(true)
    );
    let inner = Condition {
        left: ConditionWing::Number(1),
        right: ConditionWing::Number(2),
        compare: ConditionCompare::Lt,
    };
    assert_eq!(
        holds(ConditionWing::Condition(Box::new(inner)), ConditionWing::Bool(true)),
        Ok(true)
    );
}

#[test]
fn expression_errors_are_told_apart() {
    let deps = Deps::new();
    let ctx = plain_ctx();
    let fails = |list: &[&str]| {
        evaluate_condition(
            &deps,
            &ctx,
            Condition {
                left: ConditionWing::Expression(tokens(list)),
                right: ConditionWing::Number(0),
                compare: ConditionCompare::Eq,
            },
        )
    };
    assert_eq!(
        fails(&["10", "&", "2"]),
        Err(Stop::Fail(EvalError::Expression(ExpressionError::InvalidOperator)))
    );
    assert_eq!(
        fails(&["(", "5", "+", "2"]),
        Err(Stop::Fail(EvalError::Expression(ExpressionError::InvalidExpression)))
    );
    assert_eq!(
        fails(&[]),
        Err(Stop::Fail(EvalError::Expression(ExpressionError::InvalidExpression)))
    );
    assert_eq!(
        fails(&["170141183460469231731687303715884105727", "+", "1"]),
        Err(Stop::Fail(EvalError::Expression(ExpressionError::Overflow)))
    );
    // a name without a variable is taken for an operator
    assert_eq!(
        fails(&["missing", "+", "1"]),
        Err(Stop::Fail(EvalError::Expression(ExpressionError::InvalidExpression)))
    );
    assert_eq!(
        fails(&["1", "missing", "2"]),
        Err(Stop::Fail(EvalError::Expression(ExpressionError::InvalidOperator)))
    );
}

#[test]
fn a_variable_of_an_expression_must_be_an_integer() {
    let mut deps = Deps::new();
    let ctx = JSON::from(Value::Object(vec![
        ("n".to_string(), Value::Integer(5)),
        ("s".to_string(), text("5")),
    ]));
    add_variable(&mut deps, &Variable::Reference("n".to_string()), "number");
    add_variable(&mut deps, &Variable::Reference("s".to_string()), "quoted");
    add_variable(&mut deps, &Variable::Reference("none".to_string()), "nothing");
    let value = |list: &[&str]| {
        evaluate_condition(
            &deps,
            &ctx,
            Condition {
                left: ConditionWing::Expression(tokens(list)),
                right: ConditionWing::Number(6),
                compare: ConditionCompare::Eq,
            },
        )
    };
    assert_eq!(value(&["number", "+", "1"]), Ok(true));
    assert_eq!(
        value(&["quoted", "+", "1"]),
        Err(Stop::Fail(EvalError::Expression(ExpressionError::NotAnInteger)))
    );
    // a name that resolves to nothing stays a token, and is then no operand
    assert_eq!(
        value(&["nothing", "+", "1"]),
        Err(Stop::Fail(EvalError::Expression(ExpressionError::InvalidExpression)))
    );
    // alone, a token that resolves to nothing stands for itself
    assert_eq!(
        evaluate_condition(
            &deps,
            &ctx,
            Condition {
                left: ConditionWing::Expression(tokens(&["nothing"])),
                right: ConditionWing::String("nothing".to_string()),
                compare: ConditionCompare::Eq,
            },
        ),
        Ok(true)
    );
    // alone, a text variable is compared by its text
    assert_eq!(
        evaluate_condition(
            &deps,
            &ctx,
            Condition {
                left: ConditionWing::Expression(tokens(&["quoted"])),
                right: ConditionWing::Number(5),
                compare: ConditionCompare::Gte,
            },
        ),
        Ok(true)
    );
}

#[test]
fn variables_resolve_by_their_kind() {
    let deps = Deps::new();
    let ctx = JSON::from(Value::Object(vec![(
        "a".to_string(),
        Value::Sequence(vec![Value::Integer(1), text("two")]),
    )]));
    assert_eq!(
        evaluate_variable(&deps, &ctx, &Variable::Raw("a.1".to_string())),
        Ok(Some(text("a.1")))
    );
    assert_eq!(
        evaluate_variable(&deps, &ctx, &Variable::Reference("a.1".to_string())),
        Ok(Some(text("two")))
    );
    assert_eq!(
        evaluate_variable(&deps, &ctx, &Variable::Reference("a.2".to_string())),
        Ok(None)
    );
}

#[test]
fn a_token_resolves_through_the_stored_variable() {
    let mut deps = Deps::new();
    let ctx = JSON::from(Value::Object(vec![("k".to_string(), Value::Integer(9))]));
    assert_eq!(evaluate_token(&deps, &ctx, &"name".to_string()), Ok(None));
    add_variable(&mut deps, &Variable::Reference("k".to_string()), "name");
    assert_eq!(
        evaluate_token(&deps, &ctx, &"name".to_string()),
        Ok(Some(Value::Integer(9)))
    );
    add_variable(&mut deps, &Variable::Raw("now raw".to_string()), "name");
    assert_eq!(
        evaluate_token(&deps, &ctx, &"name".to_string()),
        Ok(Some(text("now raw")))
    );
    assert_eq!(evaluate_token(&deps, &ctx, &"other".to_string()), Ok(None));
}

fn raw_query(contract: Variable, key: &str, result: Option<&str>) -> Variable {
    Variable::Query(Box::new(ExternalQuery {
        contract,
        query: ExternalQueryMsg::Raw(ExternalQueryRawMsg { key: key.to_string() }),
        result: result.map(|s| s.to_string()),
    }))
}

fn raw_request(contract: &str, key: &str) -> QueryRequest {
    QueryRequest {
        contract: contract.to_string(),
        query: ExternalQueryMsg::Raw(ExternalQueryRawMsg { key: key.to_string() }),
    }
}

#[test]
fn a_query_asks_and_then_uses_the_reply() {
    let mut deps = Deps::new();
    let ctx = JSON::from(Value::Object(vec![("target".to_string(), text("contract1"))]));
    let variable = raw_query(
        Variable::Reference("target".to_string()),
        "config",
        Some("owner.name"),
    );
    let request = raw_request("contract1", "config");
    assert_eq!(
        evaluate_variable(&deps, &ctx, &variable),
        Err(Stop::Ask(raw_request("contract1", "config")))
    );
    assert!(deps.reply(&request).is_none());

    let reply = Value::Object(vec![(
        "owner".to_string(),
        Value::Object(vec![("name".to_string(), text("alice"))]),
    )]);
    deps.record_reply(raw_request("contract1", "config"), QueryReply::Found(reply.clone()));
    assert_eq!(deps.reply(&request), Some(&QueryReply::Found(reply.clone())));
    assert_eq!(evaluate_variable(&deps, &ctx, &variable), Ok(Some(text("alice"))));

    // without a result path the whole reply is the value
    let whole = raw_query(Variable::Raw("contract1".to_string()), "config", None);
    assert_eq!(evaluate_variable(&deps, &ctx, &whole), Ok(Some(reply)));

    // a result path that leads nowhere gives nothing
    let nowhere = raw_query(Variable::Raw("contract1".to_string()), "config", Some("owner.age"));
    assert_eq!(evaluate_variable(&deps, &ctx, &nowhere), Ok(None));

    // the first reply recorded stands
    deps.record_reply(raw_request("contract1", "config"), QueryReply::Absent);
    assert_eq!(evaluate_variable(&deps, &ctx, &variable), Ok(Some(text("alice"))));
}

#[test]
fn each_reply_ends_the_query_in_its_way() {
    let ctx = JSON::from(Value::Null);
    let variable = raw_query(Variable::Raw("c".to_string()), "k", None);
    let with = |reply: QueryReply| {
        let mut deps = Deps::new();
        deps.record_reply(raw_request("c", "k"), reply);
        evaluate_variable(&deps, &ctx, &variable)
    };
    assert_eq!(with(QueryReply::Found(Value::Integer(3))), Ok(Some(Value::Integer(3))));
    assert_eq!(with(QueryReply::Absent), Ok(None));
    assert_eq!(
        with(QueryReply::Failed),
        Err(Stop::Fail(EvalError::Resolution(ResolutionError::TransportFailure)))
    );
    assert_eq!(with(QueryReply::Malformed), Err(Stop::Fail(EvalError::Decode)));
}

#[test]
fn a_smart_query_is_another_request_than_a_raw_one() {
    let ctx = JSON::from(Value::Null);
    let smart = |msg: &[u8]| {
        Variable::Query(Box::new(ExternalQuery {
            contract: Variable::Raw("c".to_string()),
            query: ExternalQueryMsg::Smart(ExternalQuerySmartMsg { msg: msg.to_vec() }),
            result: None,
        }))
    };
    let mut deps = Deps::new();
    deps.record_reply(raw_request("c", "k"), QueryReply::Found(Value::Integer(1)));
    deps.record_reply(
        QueryRequest {
            contract: "c".to_string(),
            query: ExternalQueryMsg::Smart(ExternalQuerySmartMsg { msg: b"{\"a\":{}}".to_vec() }),
        },
        QueryReply::Found(Value::Integer(2)),
    );
    assert_eq!(
        evaluate_variable(&deps, &ctx, &smart(b"{\"a\":{}}")),
        Ok(Some(Value::Integer(2)))
    );
    assert_eq!(
        evaluate_variable(&deps, &ctx, &smart(b"{\"b\":{}}")),
        Err(Stop::Ask(QueryRequest {
            contract: "c".to_string(),
            query: ExternalQueryMsg::Smart(ExternalQuerySmartMsg { msg: b"{\"b\":{}}".to_vec() }),
        }))
    );
    assert_eq!(
        evaluate_variable(&deps, &ctx, &smart(b"{\"a\":{}")),
        Err(Stop::Ask(QueryRequest {
            contract: "c".to_string(),
            query: ExternalQueryMsg::Smart(ExternalQuerySmartMsg { msg: b"{\"a\":{}".to_vec() }),
        }))
    );
    assert_eq!(
        evaluate_variable(&deps, &ctx, &raw_query(Variable::Raw("d".to_string()), "k", None)),
        Err(Stop::Ask(raw_request("d", "k")))
    );
}

#[test]
fn the_contract_of_a_query_must_be_a_text() {
    let deps = Deps::new();
    let ctx = JSON::from(Value::Object(vec![("n".to_string(), Value::Integer(1))]));
    let invalid = Err(Stop::Fail(EvalError::Resolution(
        ResolutionError::InvalidContractVariable,
    )));
    assert_eq!(
        evaluate_variable(
            &deps,
            &ctx,
            &raw_query(Variable::Reference("n".to_string()), "k", None)
        ),
        invalid
    );
    assert_eq!(
        evaluate_variable(
            &deps,
            &ctx,
            &raw_query(Variable::Reference("missing".to_string()), "k", None)
        ),
        invalid
    );
}

#[test]
fn a_query_may_stand_in_the_contract_of_a_query() {
    let ctx = JSON::from(Value::Null);
    let inner = raw_query(Variable::Raw("registry".to_string()), "where", None);
    let outer = raw_query(inner, "owner", None);
    let mut deps = Deps::new();
    assert_eq!(
        evaluate_variable(&deps, &ctx, &outer),
        Err(Stop::Ask(raw_request("registry", "where")))
    );
    deps.record_reply(raw_request("registry", "where"), QueryReply::Found(text("vault")));
    assert_eq!(
        evaluate_variable(&deps, &ctx, &outer),
        Err(Stop::Ask(raw_request("vault", "owner")))
    );
    deps.record_reply(raw_request("vault", "owner"), QueryReply::Found(text("bob")));
    assert_eq!(evaluate_variable(&deps, &ctx, &outer), Ok(Some(text("bob"))));
}

fn nested_queries(levels: usize) -> Variable {
    let mut variable = Variable::Raw("c".to_string());
    for _ in 0..levels {
        variable = raw_query(variable, "k", None);
    }
    variable
}

fn nested_conditions(levels: usize) -> Condition {
    let mut condition = Condition {
        left: ConditionWing::Number(1),
        right: ConditionWing::Number(1),
        compare: ConditionCompare::Eq,
    };
    for _ in 0..levels {
        condition = Condition {
            left: ConditionWing::Condition(Box::new(condition)),
            right: ConditionWing::Bool(true),
            compare: ConditionCompare::Eq,
        };
    }
    condition
}

#[test]
fn nesting_has_a_limit() {
    assert_eq!(MAX_DEPTH, 32);
    let ctx = JSON::from(Value::Null);
    let mut deps = Deps::new();
    deps.record_reply(raw_request("c", "k"), QueryReply::Found(text("c")));
    assert_eq!(
        evaluate_variable(&deps, &ctx, &nested_queries(MAX_DEPTH)),
        Ok(Some(text("c")))
    );
    assert_eq!(
        evaluate_variable(&deps, &ctx, &nested_queries(MAX_DEPTH + 1)),
        Err(Stop::Fail(EvalError::NestingTooDeep))
    );
    assert_eq!(
        evaluate_condition(&deps, &ctx, nested_conditions(MAX_DEPTH)),
        Ok(true)
    );
    assert_eq!(
        evaluate_condition(&deps, &ctx, nested_conditions(MAX_DEPTH + 1)),
        Err(Stop::Fail(EvalError::NestingTooDeep))
    );
}

#[test]
fn the_left_side_is_evaluated_first() {
    let deps = Deps::new();
    let ctx = JSON::from(Value::Null);
    let ask = ConditionWing::Expression(tokens(&["q"]));
    let bad = ConditionWing::Expression(tokens(&["1", "&", "2"]));
    let mut with_query = Deps::new();
    add_variable(
        &mut with_query,
        &raw_query(Variable::Raw("c".to_string()), "k", None),
        "q",
    );
    assert_eq!(
        evaluate_condition(
            &with_query,
            &ctx,
            Condition { left: ask, right: bad, compare: ConditionCompare::Eq }
        ),
        Err(Stop::Ask(raw_request("c", "k")))
    );
    let ask = ConditionWing::Expression(tokens(&["q"]));
    let bad = ConditionWing::Expression(tokens(&["1", "&", "2"]));
    assert_eq!(
        evaluate_condition(
            &with_query,
            &ctx,
            Condition { left: bad, right: ask, compare: ConditionCompare::Eq }
        ),
        Err(Stop::Fail(EvalError::Expression(ExpressionError::InvalidOperator)))
    );
    assert!(deps.condition().is_none());
}

#[test]
fn the_stored_condition_is_the_default() {
    let mut deps = Deps::new();
    let ctx = plain_ctx();
    assert!(deps.condition().is_none());
    add_condition(
        &mut deps,
        Condition {
            left: ConditionWing::Number(3),
            right: ConditionWing::Number(4),
            compare: ConditionCompare::Lt,
        },
    );
    assert_eq!(evaluate_default_condition(&deps, &ctx), Ok(true));
    add_condition(
        &mut deps,
        Condition {
            left: ConditionWing::Number(3),
            right: ConditionWing::Number(4),
            compare: ConditionCompare::Gte,
        },
    );
    assert_eq!(evaluate_default_condition(&deps, &ctx), Ok(false));
    assert_eq!(
        deps.condition().map(|c| c.compare),
        Some(ConditionCompare::Gte)
    );
}

#[test]
fn evaluating_again_gives_the_same() {
    let mut deps = Deps::new();
    let env = mock_env();
    let ctx = create_condition_ctx(env_value(&env), None);
    add_variable(
        &mut deps,
        &Variable::Reference("query_ctx.env.block.height".to_string()),
        "height",
    );
    add_condition(
        &mut deps,
        Condition {
            left: ConditionWing::Expression(tokens(&["height", "*", "2"])),
            right: ConditionWing::Number(24690),
            compare: ConditionCompare::Eq,
        },
    );
    let first = evaluate_default_condition(&deps, &ctx);
    let second = evaluate_default_condition(&deps, &ctx);
    assert_eq!(first, Ok(true));
    assert_eq!(first, second);
}
