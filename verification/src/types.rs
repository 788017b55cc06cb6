//! What conditions are made of: variables, queries to other contracts, the
//! operands and comparators of a condition, and the context of a call.

use crate::eval::Tokens;
use crate::strings::texts;
use crate::value::Value;
use vstd::prelude::*;

verus! {

/// What an execution that asks for a decision hands over.
pub struct InwardExecuteCtx {
    /// The environment of that execution.
    pub env: Value,
    /// Its message, decoded.
    pub msg: Value,
    /// The funds sent with it.
    pub funds: Value,
    pub sender: String,
    pub original_sender: String,
}

/// What the query itself runs in.
pub struct CurrentQueryCtx {
    /// The environment at the time of the query.
    pub env: Value,
}

/// Everything that a condition can refer to.
pub struct ConditionCtx {
    pub execute_ctx: Option<InwardExecuteCtx>,
    pub query_ctx: CurrentQueryCtx,
}

/// A query for what a contract stores under a key.
#[derive(Debug, PartialEq, Eq)]
pub struct ExternalQueryRawMsg {
    pub key: String,
}

/// A query that a contract answers itself, as an encoded message.
#[derive(Debug, PartialEq, Eq)]
pub struct ExternalQuerySmartMsg {
    pub msg: Vec<u8>,
}

/// A query to another contract.
#[derive(Debug, PartialEq, Eq)]
pub enum ExternalQueryMsg {
    Raw(ExternalQueryRawMsg),
    Smart(ExternalQuerySmartMsg),
}

/// A query, the contract it goes to, and the part of the reply that counts.
#[derive(Debug, PartialEq, Eq)]
pub struct ExternalQuery {
    /// Resolves to the address of the contract.
    pub contract: Variable,
    pub query: ExternalQueryMsg,
    /// A path into the reply, where only a part of it is wanted.
    pub result: Option<String>,
}

/// A source of a value.
#[derive(Debug, PartialEq, Eq)]
pub enum Variable {
    /// A text, taken as it stands.
    Raw(String),
    /// A path into the execution context.
    Reference(String),
    /// What another contract replies.
    Query(Box<ExternalQuery>),
}

/// One side of a comparison.
#[derive(Debug, PartialEq, Eq)]
pub enum ConditionWing {
    Number(i128),
    String(String),
    Expression(Tokens),
    Bool(bool),
    Condition(Box<Condition>),
}

/// How the two sides are compared.
#[derive(Debug, Clone, Copy, PartialEq, Eq)]
pub enum ConditionCompare {
    Eq,
    Neq,
    Gt,
    Gte,
    Lt,
    Lte,
}

/// A comparison of two sides, each of which may be a condition again.
#[derive(Debug, PartialEq, Eq)]
pub struct Condition {
    pub left: ConditionWing,
    pub right: ConditionWing,
    pub compare: ConditionCompare,
}

/// What an [`ExternalQueryMsg`] holds.
pub enum QueryMsgView {
    Raw(Seq<char>),
    Smart(Seq<u8>),
}

/// What an [`ExternalQuery`] holds.
pub struct QueryView {
    pub contract: VariableView,
    pub query: QueryMsgView,
    pub result: Option<Seq<char>>,
}

/// What a [`Variable`] holds.
pub enum VariableView {
    Raw(Seq<char>),
    Reference(Seq<char>),
    Query(Box<QueryView>),
}

/// What a [`ConditionWing`] holds.
pub enum WingView {
    Number(int),
    String(Seq<char>),
    Expression(Seq<Seq<char>>),
    Bool(bool),
    Condition(Box<ConditionView>),
}

/// What a [`Condition`] holds.
pub struct ConditionView {
    pub left: WingView,
    pub right: WingView,
    pub compare: ConditionCompare,
}

impl View for ExternalQueryMsg {
    type V = QueryMsgView;

    open spec fn view(&self) -> QueryMsgView {
        match self {
            ExternalQueryMsg::Raw(m) => QueryMsgView::Raw(m.key@),
            ExternalQueryMsg::Smart(m) => QueryMsgView::Smart(m.msg@),
        }
    }
}

/// What a variable holds.
pub open spec fn variable_view(v: Variable) -> VariableView
    decreases v,
{
    match v {
        Variable::Raw(s) => VariableView::Raw(s@),
        Variable::Reference(s) => VariableView::Reference(s@),
        Variable::Query(q) => VariableView::Query(
            Box::new(
                QueryView {
                    contract: variable_view(q.contract),
                    query: q.query@,
                    result: match q.result {
                        Some(s) => Some(s@),
                        None => None,
                    },
                },
            ),
        ),
    }
}

impl View for Variable {
    type V = VariableView;

    open spec fn view(&self) -> VariableView {
        variable_view(*self)
    }
}

impl View for ExternalQuery {
    type V = QueryView;

    open spec fn view(&self) -> QueryView {
        QueryView {
            contract: self.contract@,
            query: self.query@,
            result: match self.result {
                Some(s) => Some(s@),
                None => None,
            },
        }
    }
}

/// What one side of a condition holds.
pub open spec fn wing_view(w: ConditionWing) -> WingView
    decreases w,
{
    match w {
        ConditionWing::Number(v) => WingView::Number(v as int),
        ConditionWing::String(s) => WingView::String(s@),
        ConditionWing::Expression(tokens) => WingView::Expression(texts(tokens@)),
        ConditionWing::Bool(b) => WingView::Bool(b),
        ConditionWing::Condition(c) => WingView::Condition(
            Box::new(
                ConditionView {
                    left: wing_view(c.left),
                    right: wing_view(c.right),
                    compare: c.compare,
                },
            ),
        ),
    }
}

impl View for ConditionWing {
    type V = WingView;

    open spec fn view(&self) -> WingView {
        wing_view(*self)
    }
}

impl View for Condition {
    type V = ConditionView;

    open spec fn view(&self) -> ConditionView {
        ConditionView { left: self.left@, right: self.right@, compare: self.compare }
    }
}

/// Copies a list of bytes.
fn copy_bytes(bytes: &Vec<u8>) -> (r: Vec<u8>)
    ensures
        r@ == bytes@,
{
    let mut out: Vec<u8> = Vec::new();
    let mut i: usize = 0;
    while i < bytes.len()
        invariant
            i <= bytes.len(),
            out@ == bytes@.take(i as int),
        decreases bytes.len() - i,
    {
        out.push(bytes[i]);
        i = i + 1;
    }
    out
}

impl Clone for ExternalQueryMsg {
    fn clone(&self) -> (r: Self)
        ensures
            r@ == self@,
    {
        match self {
            ExternalQueryMsg::Raw(m) => ExternalQueryMsg::Raw(
                ExternalQueryRawMsg { key: m.key.clone() },
            ),
            ExternalQueryMsg::Smart(m) => ExternalQueryMsg::Smart(
                ExternalQuerySmartMsg { msg: copy_bytes(&m.msg) },
            ),
        }
    }
}

impl Clone for Variable {
    fn clone(&self) -> (r: Self)
        ensures
            r@ == self@,
        decreases self,
    {
        match self {
            Variable::Raw(s) => Variable::Raw(s.clone()),
            Variable::Reference(s) => Variable::Reference(s.clone()),
            Variable::Query(q) => {
                let contract: Variable = q.contract.clone();
                let result: Option<String> = match &q.result {
                    Some(s) => Some(s.clone()),
                    None => None,
                };
                Variable::Query(
                    Box::new(
                        ExternalQuery {
                            contract: contract,
                            query: q.query.clone(),
                            result: result,
                        },
                    ),
                )
            },
        }
    }
}

} // verus!
