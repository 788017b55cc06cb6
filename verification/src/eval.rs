//! Infix arithmetic over signed 128-bit integers: a flat list of tokens is
//! evaluated with a stack of operands and a stack of operators.

use crate::decimal::{int128_of_text, parse_int128};
use crate::error::ExpressionError;
use crate::keyed::Table;
use crate::strings::{is_char, texts};
use vstd::prelude::*;

verus! {

/// The tokens of an expression, in the order in which they are written.
pub type Tokens = Vec<String>;

/// The integers that stand for the names of an expression.
pub type Bindings = Table<i128>;

/// How tightly an operator binds: `*` and `/` more tightly than `+` and `-`,
/// and anything else not at all.
pub open spec fn precedence_of(op: Seq<char>) -> nat {
    if op == seq!['+'] || op == seq!['-'] {
        1
    } else if op == seq!['*'] || op == seq!['/'] {
        2
    } else {
        0
    }
}

/// How tightly an operator binds.
pub fn precedence(op: &str) -> (r: u32)
    ensures
        r == precedence_of(op@),
{
    if is_char(op, '+') || is_char(op, '-') {
        1
    } else if is_char(op, '*') || is_char(op, '/') {
        2
    } else {
        0
    }
}

/// What an operator makes of two operands. Only `+`, `-` and `*` are carried
/// out, and only where the result is a signed 128-bit integer.
pub open spec fn applied(a: i128, b: i128, op: Seq<char>) -> Result<i128, ExpressionError> {
    if op == seq!['+'] {
        in_range(a + b)
    } else if op == seq!['-'] {
        in_range(a - b)
    } else if op == seq!['*'] {
        in_range(a * b)
    } else {
        Err(ExpressionError::InvalidOperator)
    }
}

/// An exact result as a signed 128-bit integer, if it is one.
pub open spec fn in_range(v: int) -> Result<i128, ExpressionError> {
    if i128::MIN <= v <= i128::MAX {
        Ok(v as i128)
    } else {
        Err(ExpressionError::Overflow)
    }
}

/// Applies an operator to two operands.
pub fn apply_op(a: i128, b: i128, op: &str) -> (r: Result<i128, ExpressionError>)
    ensures
        r == applied(a, b, op@),
{
    let exact: Option<i128> = if is_char(op, '+') {
        a.checked_add(b)
    } else if is_char(op, '-') {
        a.checked_sub(b)
    } else if is_char(op, '*') {
        a.checked_mul(b)
    } else {
        return Err(ExpressionError::InvalidOperator);
    };
    match exact {
        Some(v) => Ok(v),
        None => Err(ExpressionError::Overflow),
    }
}

/// The two stacks of an evaluation: the top of each is its last element.
pub struct Stacks {
    pub values: Seq<i128>,
    pub ops: Seq<Seq<char>>,
}

/// The operands after `op` has taken the two on top and left its result.
pub open spec fn reduced(values: Seq<i128>, op: Seq<char>) -> Result<Seq<i128>, ExpressionError> {
    if values.len() < 2 {
        Err(ExpressionError::InvalidExpression)
    } else {
        match applied(values[values.len() - 2], values[values.len() - 1], op) {
            Ok(v) => Ok(values.take(values.len() - 2).push(v)),
            Err(e) => Err(e),
        }
    }
}

/// The stacks after a `)`: the operators above the nearest `(` are applied,
/// topmost first, and the `(` is dropped. Without a `(` there is no result.
pub open spec fn closed(values: Seq<i128>, ops: Seq<Seq<char>>) -> Result<Stacks, ExpressionError>
    decreases ops.len(),
{
    if ops.len() == 0 {
        Err(ExpressionError::InvalidExpression)
    } else if ops.last() == seq!['('] {
        Ok(Stacks { values: values, ops: ops.drop_last() })
    } else {
        match reduced(values, ops.last()) {
            Ok(rest) => closed(rest, ops.drop_last()),
            Err(e) => Err(e),
        }
    }
}

/// The stacks after an operator arrives: the operators on top that bind at
/// least as tightly are applied first, down to a `(` or the bottom, and
/// then the new one is pushed.
pub open spec fn settled(values: Seq<i128>, ops: Seq<Seq<char>>, op: Seq<char>) -> Result<
    Stacks,
    ExpressionError,
>
    decreases ops.len(),
{
    if ops.len() == 0 || ops.last() == seq!['('] || precedence_of(ops.last()) < precedence_of(op) {
        Ok(Stacks { values: values, ops: ops.push(op) })
    } else {
        match reduced(values, ops.last()) {
            Ok(rest) => settled(rest, ops.drop_last(), op),
            Err(e) => Err(e),
        }
    }
}

/// The stacks after one token. A token that writes an integer is an
/// operand; so is a bound name, by its integer. `(` waits on the operators;
/// `)` closes; any other token is taken for an operator.
pub open spec fn stepped(s: Stacks, token: Seq<char>, bindings: Map<Seq<char>, i128>) -> Result<
    Stacks,
    ExpressionError,
> {
    if int128_of_text(token) is Some {
        Ok(Stacks { values: s.values.push(int128_of_text(token)->Some_0), ops: s.ops })
    } else if bindings.contains_key(token) {
        Ok(Stacks { values: s.values.push(bindings[token]), ops: s.ops })
    } else if token == seq!['('] {
        Ok(Stacks { values: s.values, ops: s.ops.push(token) })
    } else if token == seq![')'] {
        closed(s.values, s.ops)
    } else {
        settled(s.values, s.ops, token)
    }
}

/// The stacks after the tokens from position `from` on.
pub open spec fn ran(
    s: Stacks,
    tokens: Seq<Seq<char>>,
    from: int,
    bindings: Map<Seq<char>, i128>,
) -> Result<Stacks, ExpressionError>
    decreases tokens.len() - from,
{
    if from >= tokens.len() {
        Ok(s)
    } else {
        match stepped(s, tokens[from], bindings) {
            Ok(next) => ran(next, tokens, from + 1, bindings),
            Err(e) => Err(e),
        }
    }
}

/// The result once the tokens are used up: the operators left are applied,
/// topmost first, and the operand then on top is the result.
pub open spec fn finished(values: Seq<i128>, ops: Seq<Seq<char>>) -> Result<i128, ExpressionError>
    decreases ops.len(),
{
    if ops.len() == 0 {
        if values.len() == 0 {
            Err(ExpressionError::InvalidExpression)
        } else {
            Ok(values.last())
        }
    } else {
        match reduced(values, ops.last()) {
            Ok(rest) => finished(rest, ops.drop_last()),
            Err(e) => Err(e),
        }
    }
}

/// The value of an expression under the bindings of its names.
pub open spec fn value_of(tokens: Seq<Seq<char>>, bindings: Map<Seq<char>, i128>) -> Result<
    i128,
    ExpressionError,
> {
    match ran(Stacks { values: Seq::empty(), ops: Seq::empty() }, tokens, 0, bindings) {
        Ok(s) => finished(s.values, s.ops),
        Err(e) => Err(e),
    }
}

/// Applies the operator `op` to the two operands on top.
fn reduce(values: &mut Vec<i128>, op: &str) -> (r: Result<(), ExpressionError>)
    ensures
        match reduced(old(values)@, op@) {
            Ok(rest) => r is Ok && final(values)@ == rest,
            Err(e) => r == Err::<(), ExpressionError>(e),
        },
{
    let b: i128 = match values.pop() {
        Some(b) => b,
        None => {
            return Err(ExpressionError::InvalidExpression);
        },
    };
    let a: i128 = match values.pop() {
        Some(a) => a,
        None => {
            return Err(ExpressionError::InvalidExpression);
        },
    };
    match apply_op(a, b, op) {
        Ok(v) => {
            values.push(v);
            assert(values@ =~= old(values)@.take(old(values)@.len() - 2).push(v));
            Ok(())
        },
        Err(e) => Err(e),
    }
}

/// Pops an operator; what is left are the texts without the last.
fn pop_op(ops: &mut Vec<String>) -> (r: String)
    requires
        old(ops).len() > 0,
    ensures
        r@ == texts(old(ops)@).last(),
        texts(final(ops)@) == texts(old(ops)@).drop_last(),
{
    let top: String = match ops.pop() {
        Some(top) => top,
        None => String::new(),
    };
    assert(texts(ops@) =~= texts(old(ops)@).drop_last());
    top
}

/// Pushes an operator.
fn push_op(ops: &mut Vec<String>, op: String)
    ensures
        texts(final(ops)@) == texts(old(ops)@).push(op@),
{
    ops.push(op);
    assert(texts(ops@) =~= texts(old(ops)@).push(op@));
}

/// Handles a `)`.
fn close(values: &mut Vec<i128>, ops: &mut Vec<String>) -> (r: Result<(), ExpressionError>)
    ensures
        match closed(old(values)@, texts(old(ops)@)) {
            Ok(s) => r is Ok && final(values)@ == s.values && texts(final(ops)@) == s.ops,
            Err(e) => r == Err::<(), ExpressionError>(e),
        },
{
    while ops.len() > 0
        invariant
            closed(old(values)@, texts(old(ops)@)) == closed(values@, texts(ops@)),
        decreases ops.len(),
    {
        let top: String = pop_op(ops);
        if is_char(top.as_str(), '(') {
            return Ok(());
        }
        match reduce(values, top.as_str()) {
            Ok(()) => {},
            Err(e) => {
                return Err(e);
            },
        }
    }
    Err(ExpressionError::InvalidExpression)
}

/// Handles an operator.
fn settle(values: &mut Vec<i128>, ops: &mut Vec<String>, op: &String) -> (r: Result<
    (),
    ExpressionError,
>)
    ensures
        match settled(old(values)@, texts(old(ops)@), op@) {
            Ok(s) => r is Ok && final(values)@ == s.values && texts(final(ops)@) == s.ops,
            Err(e) => r == Err::<(), ExpressionError>(e),
        },
{
    let rank: u32 = precedence(op.as_str());
    loop
        invariant
            rank == precedence_of(op@),
            settled(old(values)@, texts(old(ops)@), op@) == settled(values@, texts(ops@), op@),
        decreases ops.len(),
    {
        let n: usize = ops.len();
        if n == 0 {
            push_op(ops, op.clone());
            return Ok(());
        }
        assert(texts(ops@).last() == ops@[n - 1]@);
        if is_char(ops[n - 1].as_str(), '(') || precedence(ops[n - 1].as_str()) < rank {
            push_op(ops, op.clone());
            return Ok(());
        }
        let top: String = pop_op(ops);
        match reduce(values, top.as_str()) {
            Ok(()) => {},
            Err(e) => {
                return Err(e);
            },
        }
    }
}

/// Evaluates an expression: its tokens one by one, then the operators left.
pub fn evaluate(tokens: Tokens, variables: &Bindings) -> (r: Result<i128, ExpressionError>)
    ensures
        r == value_of(texts(tokens@), variables@),
{
    let mut values: Vec<i128> = Vec::new();
    let mut ops: Vec<String> = Vec::new();
    let ghost start = Stacks { values: Seq::empty(), ops: Seq::empty() };
    let ghost all = texts(tokens@);
    assert(texts(ops@) =~= Seq::<Seq<char>>::empty());
    let mut i: usize = 0;
    while i < tokens.len()
        invariant
            i <= tokens.len(),
            all == texts(tokens@),
            start == (Stacks { values: Seq::empty(), ops: Seq::empty() }),
            ran(start, all, 0, variables@) == ran(
                Stacks { values: values@, ops: texts(ops@) },
                all,
                i as int,
                variables@,
            ),
        decreases tokens.len() - i,
    {
        let token: &String = &tokens[i];
        assert(all[i as int] == token@);
        let step: Result<(), ExpressionError> = match parse_int128(token.as_str()) {
            Some(v) => {
                values.push(v);
                Ok(())
            },
            None => match variables.get(token) {
                Some(v) => {
                    values.push(*v);
                    Ok(())
                },
                None => {
                    if is_char(token.as_str(), '(') {
                        push_op(&mut ops, token.clone());
                        Ok(())
                    } else if is_char(token.as_str(), ')') {
                        close(&mut values, &mut ops)
                    } else {
                        settle(&mut values, &mut ops, token)
                    }
                },
            },
        };
        match step {
            Ok(()) => {},
            Err(e) => {
                return Err(e);
            },
        }
        i = i + 1;
    }
    while ops.len() > 0
        invariant
            finished(values@, texts(ops@)) == value_of(texts(tokens@), variables@),
        decreases ops.len(),
    {
        let top: String = pop_op(&mut ops);
        match reduce(&mut values, top.as_str()) {
            Ok(()) => {},
            Err(e) => {
                return Err(e);
            },
        }
    }
    match values.pop() {
        Some(v) => Ok(v),
        None => Err(ExpressionError::InvalidExpression),
    }
}

} // verus!
