//! What an evaluation depends on besides its context: the definitions that
//! are stored, and what other contracts have replied.

use crate::keyed::{key_index, lemma_key_index, lemma_key_index_push, Table};
use crate::types::{
    Condition, ConditionView, ExternalQueryMsg, QueryMsgView, Variable, VariableView,
};
use crate::value::{Node, Value};
use vstd::prelude::*;

verus! {

/// A query that is to be sent to a contract.
#[derive(Debug, PartialEq, Eq)]
pub struct QueryRequest {
    /// The address of the contract.
    pub contract: String,
    pub query: ExternalQueryMsg,
}

/// What a [`QueryRequest`] holds.
pub struct RequestView {
    pub contract: Seq<char>,
    pub query: QueryMsgView,
}

impl View for QueryRequest {
    type V = RequestView;

    open spec fn view(&self) -> RequestView {
        RequestView { contract: self.contract@, query: self.query@ }
    }
}

/// How a query ended.
#[derive(Debug, PartialEq, Eq)]
pub enum QueryReply {
    /// The contract replied, and this is the reply, decoded.
    Found(Value),
    /// The contract stores nothing under the key.
    Absent,
    /// The contract could not be reached, or refused.
    Failed,
    /// The contract replied what is no structured value.
    Malformed,
}

/// What a [`QueryReply`] holds.
pub enum ReplyView {
    Found(Node),
    Absent,
    Failed,
    Malformed,
}

impl View for QueryReply {
    type V = ReplyView;

    open spec fn view(&self) -> ReplyView {
        match self {
            QueryReply::Found(v) => ReplyView::Found(v@),
            QueryReply::Absent => ReplyView::Absent,
            QueryReply::Failed => ReplyView::Failed,
            QueryReply::Malformed => ReplyView::Malformed,
        }
    }
}

/// The stored definitions and the replies known so far.
pub struct Deps {
    variables: Table<Variable>,
    condition: Option<Condition>,
    replies: Vec<(QueryRequest, QueryReply)>,
}

/// What a [`Deps`] holds.
pub struct DepsView {
    /// The variables that are stored, by name.
    pub variables: Map<Seq<char>, VariableView>,
    /// The condition that is evaluated by default, once one is stored.
    pub condition: Option<ConditionView>,
    /// The replies to the queries that have been made.
    pub replies: Map<RequestView, ReplyView>,
}

/// The requests of a list of replies, in their order.
pub open spec fn requests_of(replies: Seq<(QueryRequest, QueryReply)>) -> Seq<RequestView> {
    Seq::new(replies.len(), |i: int| replies[i].0@)
}

/// The replies by request: to each request the first reply recorded for it.
pub open spec fn replies_by_request(replies: Seq<(QueryRequest, QueryReply)>) -> Map<
    RequestView,
    ReplyView,
> {
    Map::new(
        |q: RequestView| key_index(requests_of(replies), q, 0) < replies.len(),
        |q: RequestView| replies[key_index(requests_of(replies), q, 0)].1@,
    )
}

/// The variables by name, each by what it holds.
pub open spec fn variables_by_name(table: Map<Seq<char>, Variable>) -> Map<
    Seq<char>,
    VariableView,
> {
    Map::new(|k: Seq<char>| table.contains_key(k), |k: Seq<char>| table[k]@)
}

impl View for Deps {
    type V = DepsView;

    closed spec fn view(&self) -> DepsView {
        DepsView {
            variables: variables_by_name(self.variables@),
            condition: match self.condition {
                Some(c) => Some(c@),
                None => None,
            },
            replies: replies_by_request(self.replies@),
        }
    }
}

/// Whether two lists hold the same bytes.
fn same_bytes(a: &Vec<u8>, b: &Vec<u8>) -> (r: bool)
    ensures
        r == (a@ == b@),
{
    if a.len() != b.len() {
        return false;
    }
    let mut i: usize = 0;
    while i < a.len()
        invariant
            i <= a.len(),
            a.len() == b.len(),
            a@.take(i as int) == b@.take(i as int),
        decreases a.len() - i,
    {
        if a[i] != b[i] {
            return false;
        }
        assert(a@.take(i + 1) =~= a@.take(i as int).push(a@[i as int]));
        assert(b@.take(i + 1) =~= b@.take(i as int).push(b@[i as int]));
        i = i + 1;
    }
    assert(a@.take(a.len() as int) =~= a@);
    assert(b@.take(b.len() as int) =~= b@);
    true
}

/// Whether two requests ask the same of the same contract.
fn same_request(a: &QueryRequest, b: &QueryRequest) -> (r: bool)
    ensures
        r == (a@ == b@),
{
    if !(a.contract == b.contract) {
        return false;
    }
    match (&a.query, &b.query) {
        (ExternalQueryMsg::Raw(x), ExternalQueryMsg::Raw(y)) => x.key == y.key,
        (ExternalQueryMsg::Smart(x), ExternalQueryMsg::Smart(y)) => same_bytes(&x.msg, &y.msg),
        _ => false,
    }
}

impl Deps {
    /// Nothing stored, and no reply known.
    pub fn new() -> (r: Deps)
        ensures
            r@.variables == Map::<Seq<char>, VariableView>::empty(),
            r@.condition is None,
            r@.replies == Map::<RequestView, ReplyView>::empty(),
    {
        let r = Deps { variables: Table::new(), condition: None, replies: Vec::new() };
        assert(r@.variables =~= Map::<Seq<char>, VariableView>::empty());
        assert(r@.replies =~= Map::<RequestView, ReplyView>::empty());
        r
    }

    /// The variable stored under `name`.
    pub fn variable(&self, name: &String) -> (r: Option<&Variable>)
        ensures
            match r {
                Some(v) => self@.variables.contains_key(name@) && self@.variables[name@] == v@,
                None => !self@.variables.contains_key(name@),
            },
    {
        self.variables.get(name)
    }

    /// The condition that is stored.
    pub fn condition(&self) -> (r: Option<&Condition>)
        ensures
            match r {
                Some(c) => self@.condition == Some(c@),
                None => self@.condition is None,
            },
    {
        match &self.condition {
            Some(c) => Some(c),
            None => None,
        }
    }

    /// The reply recorded for `request`.
    pub fn reply(&self, request: &QueryRequest) -> (r: Option<&QueryReply>)
        ensures
            match r {
                Some(reply) => self@.replies.contains_key(request@) && self@.replies[request@]
                    == reply@,
                None => !self@.replies.contains_key(request@),
            },
    {
        let ghost requests = requests_of(self.replies@);
        let mut i: usize = 0;
        while i < self.replies.len()
            invariant
                i <= self.replies.len(),
                requests == requests_of(self.replies@),
                key_index(requests, request@, 0) == key_index(requests, request@, i as int),
            decreases self.replies.len() - i,
        {
            if same_request(&self.replies[i].0, request) {
                return Some(&self.replies[i].1);
            }
            i = i + 1;
        }
        None
    }

    /// Records the reply to a request. The first reply recorded for a
    /// request stands.
    pub fn record_reply(&mut self, request: QueryRequest, reply: QueryReply)
        ensures
            final(self)@.variables == old(self)@.variables,
            final(self)@.condition == old(self)@.condition,
            final(self)@.replies == if old(self)@.replies.contains_key(request@) {
                old(self)@.replies
            } else {
                old(self)@.replies.insert(request@, reply@)
            },
    {
        let ghost before = self.replies@;
        proof {
            lemma_key_index_push(requests_of(before), request@);
        }
        self.replies.push((request, reply));
        proof {
            let after = self.replies@;
            let n = before.len() as int;
            assert(requests_of(after) =~= requests_of(before).push(request@));
            let want = if replies_by_request(before).contains_key(request@) {
                replies_by_request(before)
            } else {
                replies_by_request(before).insert(request@, reply@)
            };
            assert forall|q: RequestView|
                replies_by_request(after).contains_key(q) == want.contains_key(q) && (
                want.contains_key(q) ==> replies_by_request(after)[q] == want[q]) by {
                lemma_key_index(requests_of(after), q, 0);
                lemma_key_index(requests_of(before), q, 0);
                let at = key_index(requests_of(after), q, 0);
                if at < n {
                    assert(after[at] == before[at]);
                }
            }
            assert(replies_by_request(after) =~= want);
        }
    }

    /// Stores the condition that is evaluated by default.
    pub fn store_condition(&mut self, condition: Condition)
        ensures
            final(self)@.variables == old(self)@.variables,
            final(self)@.condition == Some(condition@),
            final(self)@.replies == old(self)@.replies,
    {
        self.condition = Some(condition);
    }

    /// Stores a variable under a name, in the place of what stood there.
    pub fn store_variable(&mut self, name: &str, variable: Variable)
        ensures
            final(self)@.variables == old(self)@.variables.insert(name@, variable@),
            final(self)@.condition == old(self)@.condition,
            final(self)@.replies == old(self)@.replies,
    {
        self.variables.insert(name, variable);
        assert(variables_by_name(self.variables@) =~= variables_by_name(
            old(self).variables@,
        ).insert(name@, variable@));
    }
}

} // verus!
