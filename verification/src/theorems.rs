//! What holds of every evaluation of a condition.

use crate::decimal::{decimal_text, int128_of_text, lemma_decimal_text_read_back};
use crate::error::{ComparisonError, EvalError};
use crate::grammar::{
    closing, lemma_evaluates_as_read, lemma_operators_write_no_integer, minus, opening, plus,
    star, Factor, Sum, Term,
};
use crate::json::get_at;
use crate::query::{
    bound_from, compared, expression_value, holds, ordered, resolved, token_value, wing_text,
    StopView, MAX_DEPTH,
};
use crate::render::json_text;
use crate::state::DepsView;
use crate::strings::path_segments;
use crate::types::{ConditionCompare, ConditionView, VariableView, WingView};
use crate::value::Node;
use vstd::prelude::*;

verus! {

/// An ordering of two texts that do not both write integers is an error,
/// whatever the texts are.
pub proof fn lemma_ordering_needs_integers(left: Seq<char>, right: Seq<char>, op: ConditionCompare)
    requires
        int128_of_text(left) is None || int128_of_text(right) is None,
        op != ConditionCompare::Eq,
        op != ConditionCompare::Neq,
    ensures
        compared(left, right, op) == Err::<bool, ComparisonError>(
            ComparisonError::InvalidComparisonForType,
        ),
{
}

/// A condition that orders two texts which do not both write integers
/// fails, in every context and at every depth.
pub proof fn lemma_ordering_of_texts_fails(
    deps: DepsView,
    ctx: Node,
    left: Seq<char>,
    right: Seq<char>,
    op: ConditionCompare,
    depth: nat,
)
    requires
        int128_of_text(left) is None || int128_of_text(right) is None,
        op != ConditionCompare::Eq,
        op != ConditionCompare::Neq,
    ensures
        holds(
            deps,
            ctx,
            ConditionView {
                left: WingView::String(left),
                right: WingView::String(right),
                compare: op,
            },
            depth,
        ) == Err::<bool, StopView>(
            StopView::Fail(EvalError::Comparison(ComparisonError::InvalidComparisonForType)),
        ),
{
}

/// Two numbers are compared as the integers they are.
pub proof fn lemma_numbers_compare_as_integers(
    deps: DepsView,
    ctx: Node,
    a: i128,
    b: i128,
    op: ConditionCompare,
    depth: nat,
)
    ensures
        holds(
            deps,
            ctx,
            ConditionView {
                left: WingView::Number(a as int),
                right: WingView::Number(b as int),
                compare: op,
            },
            depth,
        ) == Ok::<bool, StopView>(ordered(a as int, b as int, op)),
{
    lemma_decimal_text_read_back(a as int);
    lemma_decimal_text_read_back(b as int);
}

/// A number and a text that writes an integer are compared as integers,
/// whichever side each stands on.
pub proof fn lemma_number_and_text_compare_as_integers(
    deps: DepsView,
    ctx: Node,
    a: i128,
    text: Seq<char>,
    b: i128,
    op: ConditionCompare,
    depth: nat,
)
    requires
        int128_of_text(text) == Some(b),
    ensures
        holds(
            deps,
            ctx,
            ConditionView {
                left: WingView::Number(a as int),
                right: WingView::String(text),
                compare: op,
            },
            depth,
        ) == Ok::<bool, StopView>(ordered(a as int, b as int, op)),
        holds(
            deps,
            ctx,
            ConditionView {
                left: WingView::String(text),
                right: WingView::Number(a as int),
                compare: op,
            },
            depth,
        ) == Ok::<bool, StopView>(ordered(b as int, a as int, op)),
{
    lemma_decimal_text_read_back(a as int);
}

/// A reference to an integer of the context, plus a positive literal, is
/// greater than the reference alone: whatever integer the context holds
/// there, as long as the sum is in range.
pub proof fn lemma_reference_plus_literal_is_greater(
    deps: DepsView,
    ctx: Node,
    name: Seq<char>,
    path: Seq<char>,
    held: int,
    literal: Seq<char>,
    added: i128,
    depth: nat,
)
    requires
        deps.variables.contains_key(name),
        deps.variables[name] == VariableView::Reference(path),
        !deps.variables.contains_key(plus()),
        !deps.variables.contains_key(literal),
        name != minus() && name != star() && name != opening() && name != closing(),
        int128_of_text(name) is None,
        get_at(ctx, path_segments(path)) == Some(Node::Integer(held)),
        int128_of_text(literal) == Some(added),
        added > 0,
        i128::MIN <= held,
        held + added <= i128::MAX,
    ensures
        holds(
            deps,
            ctx,
            ConditionView {
                left: WingView::Expression(seq![name, plus(), literal]),
                right: WingView::Expression(seq![name]),
                compare: ConditionCompare::Gt,
            },
            depth,
        ) == Ok::<bool, StopView>(true),
{
    let tokens = seq![name, plus(), literal];
    let bindings = Map::<Seq<char>, i128>::empty().insert(name, held as i128);
    lemma_decimal_text_read_back(held);
    lemma_decimal_text_read_back(held + added);
    lemma_operators_write_no_integer();
    // the bindings: the name alone
    assert(token_value(deps, ctx, name) == Ok::<Option<Node>, StopView>(Some(Node::Integer(held))));
    assert(json_text(Node::Integer(held)) == decimal_text(held));
    assert(bound_from(deps, ctx, tokens, 3, bindings) == Ok::<Map<Seq<char>, i128>, StopView>(
        bindings,
    ));
    assert(bound_from(deps, ctx, tokens, 2, bindings) == Ok::<Map<Seq<char>, i128>, StopView>(
        bindings,
    ));
    assert(bound_from(deps, ctx, tokens, 1, bindings) == Ok::<Map<Seq<char>, i128>, StopView>(
        bindings,
    ));
    assert(bound_from(deps, ctx, tokens, 0, Map::empty()) == Ok::<Map<Seq<char>, i128>, StopView>(
        bindings,
    ));
    // the value: as the expression is read
    let first = Factor::Operand(name);
    let second = Factor::Operand(literal);
    let left = Sum::One(Term::One(first));
    let right = Term::One(second);
    let sum = Sum::Plus(Box::new(left), right);
    assert(name != plus());
    assert(first.tokens() == seq![name] && second.tokens() == seq![literal]);
    assert(Term::One(first).tokens() == seq![name] && right.tokens() == seq![literal]);
    assert(left.tokens() == seq![name]);
    assert(sum.tokens() =~= tokens);
    assert(first.well_formed(bindings) && second.well_formed(bindings));
    assert(Term::One(first).well_formed(bindings) && right.well_formed(bindings));
    assert(left.well_formed(bindings));
    assert(sum.well_formed(bindings));
    assert(first.value(bindings) == Some(held as i128) && second.value(bindings) == Some(added));
    assert(Term::One(first).value(bindings) == Some(held as i128) && right.value(bindings)
        == Some(added));
    assert(left.value(bindings) == Some(held as i128));
    lemma_evaluates_as_read(sum, bindings);
    assert(sum.value(bindings) == Some((held + added) as i128));
    assert(expression_value(deps, ctx, tokens) == Ok::<Node, StopView>(
        Node::String(decimal_text(held + added)),
    ));
    assert(expression_value(deps, ctx, seq![name]) == Ok::<Node, StopView>(Node::Integer(held)));
}

/// A query is asked for only while its reply is not known: once the reply
/// is recorded, the same evaluation does not ask for it again.
pub proof fn lemma_asks_only_the_unknown(deps: DepsView, ctx: Node, v: VariableView, depth: nat)
    ensures
        resolved(deps, ctx, v, depth) matches Err(StopView::Ask(request))
            ==> !deps.replies.contains_key(request),
    decreases depth,
{
    match v {
        VariableView::Query(q) => {
            if depth > 0 {
                lemma_asks_only_the_unknown(deps, ctx, q.contract, (depth - 1) as nat);
            }
        },
        _ => {},
    }
}

/// The bindings of an expression ask for a query only while its reply is
/// not known.
proof fn lemma_bindings_ask_only_the_unknown(
    deps: DepsView,
    ctx: Node,
    tokens: Seq<Seq<char>>,
    from: int,
    acc: Map<Seq<char>, i128>,
)
    requires
        0 <= from,
    ensures
        bound_from(deps, ctx, tokens, from, acc) matches Err(StopView::Ask(request))
            ==> !deps.replies.contains_key(request),
    decreases tokens.len() - from,
{
    if from < tokens.len() {
        if deps.variables.contains_key(tokens[from]) {
            lemma_asks_only_the_unknown(
                deps,
                ctx,
                deps.variables[tokens[from]],
                MAX_DEPTH as nat,
            );
        }
        match token_value(deps, ctx, tokens[from]) {
            Ok(None) => {
                lemma_bindings_ask_only_the_unknown(deps, ctx, tokens, from + 1, acc);
            },
            Ok(Some(v)) => {
                match int128_of_text(json_text(v)) {
                    Some(i) => {
                        lemma_bindings_ask_only_the_unknown(
                            deps,
                            ctx,
                            tokens,
                            from + 1,
                            acc.insert(tokens[from], i),
                        );
                    },
                    None => {},
                }
            },
            Err(_) => {},
        }
    }
}

/// One side of a condition asks for a query only while its reply is not
/// known.
proof fn lemma_wing_asks_only_the_unknown(deps: DepsView, ctx: Node, w: WingView, depth: nat)
    ensures
        wing_text(deps, ctx, w, depth) matches Err(StopView::Ask(request))
            ==> !deps.replies.contains_key(request),
    decreases depth, 0nat,
{
    match w {
        WingView::Expression(tokens) => {
            if tokens.len() == 1 {
                if deps.variables.contains_key(tokens[0]) {
                    lemma_asks_only_the_unknown(
                        deps,
                        ctx,
                        deps.variables[tokens[0]],
                        MAX_DEPTH as nat,
                    );
                }
            } else {
                lemma_bindings_ask_only_the_unknown(deps, ctx, tokens, 0, Map::empty());
            }
        },
        WingView::Condition(c) => {
            if depth > 0 {
                lemma_condition_asks_only_the_unknown(deps, ctx, *c, (depth - 1) as nat);
            }
        },
        _ => {},
    }
}

/// A condition asks for a query only while its reply is not known. So each
/// reply that is recorded brings the evaluation further.
pub proof fn lemma_condition_asks_only_the_unknown(
    deps: DepsView,
    ctx: Node,
    c: ConditionView,
    depth: nat,
)
    ensures
        holds(deps, ctx, c, depth) matches Err(StopView::Ask(request))
            ==> !deps.replies.contains_key(request),
    decreases depth, 1nat,
{
    lemma_wing_asks_only_the_unknown(deps, ctx, c.left, depth);
    lemma_wing_asks_only_the_unknown(deps, ctx, c.right, depth);
}

} // verus!
