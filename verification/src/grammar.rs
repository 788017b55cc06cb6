//! Expressions as they are usually read: sums of products of operands and
//! parenthesised sums, each operator joining what stands to its left. The
//! evaluator of [`crate::eval`] gives every such expression its usual value.

use crate::decimal::{all_digits, int128_of_text, is_digit};
use crate::error::ExpressionError;
use crate::eval::{
    applied, closed, finished, precedence_of, ran, reduced, settled, stepped, value_of, Stacks,
};
use vstd::prelude::*;

verus! {

/// An operand, or a sum in parentheses.
pub enum Factor {
    Operand(Seq<char>),
    Group(Box<Sum>),
}

/// A factor, or a term times a factor.
pub enum Term {
    One(Factor),
    Times(Box<Term>, Factor),
}

/// A term, or a sum plus or minus a term.
pub enum Sum {
    One(Term),
    Plus(Box<Sum>, Term),
    Minus(Box<Sum>, Term),
}

/// The token `+`.
pub open spec fn plus() -> Seq<char> {
    seq!['+']
}

/// The token `-`.
pub open spec fn minus() -> Seq<char> {
    seq!['-']
}

/// The token `*`.
pub open spec fn star() -> Seq<char> {
    seq!['*']
}

/// The token `(`.
pub open spec fn opening() -> Seq<char> {
    seq!['(']
}

/// The token `)`.
pub open spec fn closing() -> Seq<char> {
    seq![')']
}

/// The token of a sign.
pub open spec fn sign(add: bool) -> Seq<char> {
    if add {
        plus()
    } else {
        minus()
    }
}

/// The integer that a token stands for as an operand: the one it writes, or
/// else the one it is bound to.
pub open spec fn operand_value(token: Seq<char>, bindings: Map<Seq<char>, i128>) -> Option<i128> {
    if int128_of_text(token) is Some {
        int128_of_text(token)
    } else if bindings.contains_key(token) {
        Some(bindings[token])
    } else {
        None
    }
}

/// Whether no operator and no parenthesis is bound as a name.
pub open spec fn operators_free(bindings: Map<Seq<char>, i128>) -> bool {
    &&& !bindings.contains_key(plus())
    &&& !bindings.contains_key(minus())
    &&& !bindings.contains_key(star())
    &&& !bindings.contains_key(opening())
    &&& !bindings.contains_key(closing())
}

/// An exact result, if it is a signed 128-bit integer.
pub open spec fn fits(v: int) -> Option<i128> {
    if i128::MIN <= v <= i128::MAX {
        Some(v as i128)
    } else {
        None
    }
}

/// The sum or difference of two integers, if it is in range.
pub open spec fn joined(a: i128, b: i128, add: bool) -> Option<i128> {
    if add {
        fits(a + b)
    } else {
        fits(a - b)
    }
}

impl Factor {
    /// The tokens that write the factor.
    pub open spec fn tokens(self) -> Seq<Seq<char>>
        decreases self,
    {
        match self {
            Factor::Operand(t) => seq![t],
            Factor::Group(s) => seq![opening()] + s.tokens() + seq![closing()],
        }
    }

    /// Whether every operand stands for an integer.
    pub open spec fn well_formed(self, bindings: Map<Seq<char>, i128>) -> bool
        decreases self,
    {
        match self {
            Factor::Operand(t) => operand_value(t, bindings) is Some,
            Factor::Group(s) => s.well_formed(bindings),
        }
    }

    /// The value, unless a result on the way is out of range.
    pub open spec fn value(self, bindings: Map<Seq<char>, i128>) -> Option<i128>
        decreases self,
    {
        match self {
            Factor::Operand(t) => operand_value(t, bindings),
            Factor::Group(s) => s.value(bindings),
        }
    }
}

impl Term {
    /// The tokens that write the term.
    pub open spec fn tokens(self) -> Seq<Seq<char>>
        decreases self,
    {
        match self {
            Term::One(f) => f.tokens(),
            Term::Times(t, f) => t.tokens() + seq![star()] + f.tokens(),
        }
    }

    /// Whether every operand stands for an integer.
    pub open spec fn well_formed(self, bindings: Map<Seq<char>, i128>) -> bool
        decreases self,
    {
        match self {
            Term::One(f) => f.well_formed(bindings),
            Term::Times(t, f) => t.well_formed(bindings) && f.well_formed(bindings),
        }
    }

    /// The value, unless a result on the way is out of range.
    pub open spec fn value(self, bindings: Map<Seq<char>, i128>) -> Option<i128>
        decreases self,
    {
        match self {
            Term::One(f) => f.value(bindings),
            Term::Times(t, f) => match (t.value(bindings), f.value(bindings)) {
                (Some(a), Some(b)) => fits(a * b),
                _ => None,
            },
        }
    }
}

impl Sum {
    /// The tokens that write the sum.
    pub open spec fn tokens(self) -> Seq<Seq<char>>
        decreases self,
    {
        match self {
            Sum::One(t) => t.tokens(),
            Sum::Plus(s, t) => s.tokens() + seq![plus()] + t.tokens(),
            Sum::Minus(s, t) => s.tokens() + seq![minus()] + t.tokens(),
        }
    }

    /// Whether every operand stands for an integer.
    pub open spec fn well_formed(self, bindings: Map<Seq<char>, i128>) -> bool
        decreases self,
    {
        match self {
            Sum::One(t) => t.well_formed(bindings),
            Sum::Plus(s, t) => s.well_formed(bindings) && t.well_formed(bindings),
            Sum::Minus(s, t) => s.well_formed(bindings) && t.well_formed(bindings),
        }
    }

    /// The value, unless a result on the way is out of range.
    pub open spec fn value(self, bindings: Map<Seq<char>, i128>) -> Option<i128>
        decreases self,
    {
        match self {
            Sum::One(t) => t.value(bindings),
            Sum::Plus(s, t) => match (s.value(bindings), t.value(bindings)) {
                (Some(a), Some(b)) => fits(a + b),
                _ => None,
            },
            Sum::Minus(s, t) => match (s.value(bindings), t.value(bindings)) {
                (Some(a), Some(b)) => fits(a - b),
                _ => None,
            },
        }
    }
}

/// The result that an expression owes: its value, or an overflow.
pub open spec fn owed(value: Option<i128>) -> Result<i128, ExpressionError> {
    match value {
        Some(v) => Ok(v),
        None => Err(ExpressionError::Overflow),
    }
}

/// The stacks after all of `tokens`.
pub open spec fn run(s: Stacks, tokens: Seq<Seq<char>>, bindings: Map<Seq<char>, i128>) -> Result<
    Stacks,
    ExpressionError,
> {
    ran(s, tokens, 0, bindings)
}

/// The stacks after `tokens`, from where an earlier run has come to.
pub open spec fn run_on(
    before: Result<Stacks, ExpressionError>,
    tokens: Seq<Seq<char>>,
    bindings: Map<Seq<char>, i128>,
) -> Result<Stacks, ExpressionError> {
    match before {
        Ok(s) => run(s, tokens, bindings),
        Err(e) => Err(e),
    }
}

/// Running from a position on is running what stands from there on.
proof fn lemma_ran_shift(
    s: Stacks,
    tokens: Seq<Seq<char>>,
    from: int,
    bindings: Map<Seq<char>, i128>,
)
    requires
        0 <= from <= tokens.len(),
    ensures
        ran(s, tokens, from, bindings) == ran(s, tokens.skip(from), 0, bindings),
    decreases tokens.len() - from,
{
    let rest = tokens.skip(from);
    if from < tokens.len() {
        assert(rest[0] == tokens[from]);
        match stepped(s, tokens[from], bindings) {
            Ok(next) => {
                lemma_ran_shift(next, tokens, from + 1, bindings);
                lemma_ran_shift(next, rest, 1, bindings);
                assert(rest.skip(1) =~= tokens.skip(from + 1));
            },
            Err(_) => {},
        }
    }
}

/// Running two lists of tokens one after the other is running them as one.
pub proof fn lemma_run_append(
    s: Stacks,
    a: Seq<Seq<char>>,
    b: Seq<Seq<char>>,
    bindings: Map<Seq<char>, i128>,
)
    ensures
        run(s, a + b, bindings) == run_on(run(s, a, bindings), b, bindings),
    decreases a.len(),
{
    if a.len() == 0 {
        assert(a + b =~= b);
    } else {
        let all = a + b;
        assert(all[0] == a[0]);
        match stepped(s, a[0], bindings) {
            Ok(next) => {
                lemma_ran_shift(next, all, 1, bindings);
                lemma_ran_shift(next, a, 1, bindings);
                assert(all.skip(1) =~= a.skip(1) + b);
                lemma_run_append(next, a.skip(1), b, bindings);
            },
            Err(_) => {},
        }
    }
}

/// Running one token is taking one step.
pub proof fn lemma_run_one(s: Stacks, token: Seq<char>, bindings: Map<Seq<char>, i128>)
    ensures
        run(s, seq![token], bindings) == stepped(s, token, bindings),
{
    let tokens = seq![token];
    assert(tokens[0] == token);
    match stepped(s, token, bindings) {
        Ok(next) => {
            assert(ran(next, tokens, 1, bindings) == Ok::<Stacks, ExpressionError>(next));
        },
        Err(_) => {},
    }
}

/// The operators and parentheses write no integers.
pub proof fn lemma_operators_write_no_integer()
    ensures
        int128_of_text(plus()) is None,
        int128_of_text(minus()) is None,
        int128_of_text(star()) is None,
        int128_of_text(opening()) is None,
        int128_of_text(closing()) is None,
        precedence_of(plus()) == 1,
        precedence_of(minus()) == 1,
        precedence_of(star()) == 2,
{
    assert(!all_digits(plus().skip(1)));
    assert(!all_digits(minus().skip(1)));
    assert(!is_digit(star()[0]));
    assert(!is_digit(opening()[0]));
    assert(!is_digit(closing()[0]));
    assert(plus()[0] == '+');
    assert(minus()[0] == '-');
    assert(star()[0] == '*');
    assert(opening()[0] == '(');
    assert(closing()[0] == ')');
}

/// What stands on the stacks above a base while a sum is being read: the
/// sum so far with its sign, where a term has been completed; the product
/// so far, where the term being read has more than one factor; and the
/// factor read last.
pub struct Pending {
    pub sum: Option<(i128, bool)>,
    pub product: Option<i128>,
    pub last: i128,
}

/// The stacks with what is pending laid on a base.
pub open spec fn laid(p: Pending, base: Stacks) -> Stacks {
    let summed = with_sum(p.sum, base);
    match p.product {
        Some(x) => Stacks {
            values: summed.values.push(x).push(p.last),
            ops: summed.ops.push(star()),
        },
        None => Stacks { values: summed.values.push(p.last), ops: summed.ops },
    }
}

/// The base with the sum so far and its sign on it.
pub open spec fn with_sum(sum: Option<(i128, bool)>, base: Stacks) -> Stacks {
    match sum {
        Some((s, add)) => Stacks { values: base.values.push(s), ops: base.ops.push(sign(add)) },
        None => base,
    }
}

/// The value of the term being read.
pub open spec fn pending_term(p: Pending) -> Option<i128> {
    match p.product {
        Some(x) => fits(x * p.last),
        None => Some(p.last),
    }
}

/// The value of all that is pending.
pub open spec fn pending_value(p: Pending) -> Option<i128> {
    match (p.sum, pending_term(p)) {
        (Some((s, add)), Some(t)) => joined(s, t, add),
        (None, t) => t,
        _ => None,
    }
}

/// Whether the operators of a base stay where they are while a sum is read
/// on it: there are none, or a `(` is on top.
pub open spec fn sealed(base: Stacks) -> bool {
    base.ops.len() == 0 || base.ops.last() == opening()
}

/// A `*` asks for the product so far, and waits on top of it.
pub proof fn lemma_star_arrives(p: Pending, base: Stacks)
    requires
        sealed(base),
    ensures
        settled(laid(p, base).values, laid(p, base).ops, star()) == match pending_term(p) {
            Some(t) => Ok(
                Stacks {
                    values: with_sum(p.sum, base).values.push(t),
                    ops: with_sum(p.sum, base).ops.push(star()),
                },
            ),
            None => Err(ExpressionError::Overflow),
        },
{
    lemma_operators_write_no_integer();
    let under = with_sum(p.sum, base);
    assert(under.ops.len() == 0 || under.ops.last() == opening() || precedence_of(under.ops.last())
        < precedence_of(star()));
    match p.product {
        Some(x) => {
            let values = under.values.push(x).push(p.last);
            let ops = under.ops.push(star());
            assert(ops.last() == star());
            assert(ops.drop_last() =~= under.ops);
            assert(values.take(values.len() - 2) =~= under.values);
            match pending_term(p) {
                Some(t) => {
                    assert(reduced(values, star()) == Ok::<Seq<i128>, ExpressionError>(
                        under.values.push(t),
                    ));
                    assert(settled(under.values.push(t), under.ops, star()) == Ok::<
                        Stacks,
                        ExpressionError,
                    >(Stacks { values: under.values.push(t), ops: under.ops.push(star()) }));
                },
                None => {},
            }
        },
        None => {},
    }
}

/// What an operator on top of two operands leaves.
proof fn lemma_reduced_top(values: Seq<i128>, a: i128, b: i128, op: Seq<char>)
    ensures
        reduced(values.push(a).push(b), op) == match applied(a, b, op) {
            Ok(v) => Ok::<Seq<i128>, ExpressionError>(values.push(v)),
            Err(e) => Err(e),
        },
{
    let all = values.push(a).push(b);
    assert(all.take(all.len() - 2) =~= values);
}

/// The operators apply what the grammar says.
proof fn lemma_applied(a: i128, b: i128)
    ensures
        applied(a, b, star()) == owed(fits(a * b)),
        applied(a, b, plus()) == owed(fits(a + b)),
        applied(a, b, minus()) == owed(fits(a - b)),
        forall|add: bool| #[trigger] applied(a, b, sign(add)) == owed(joined(a, b, add)),
{
    assert(plus()[0] == '+');
    assert(minus()[0] == '-');
    assert(star()[0] == '*');
}

/// No operator is written as `(`.
proof fn lemma_tokens_differ()
    ensures
        star() != opening(),
        plus() != opening(),
        minus() != opening(),
        forall|add: bool| #[trigger] sign(add) != opening(),
{
    assert(plus()[0] == '+');
    assert(minus()[0] == '-');
    assert(star()[0] == '*');
    assert(opening()[0] == '(');
}

/// A `+` or `-` asks for all that is pending, and waits on top of it.
pub proof fn lemma_sign_arrives(p: Pending, base: Stacks, add: bool)
    requires
        sealed(base),
    ensures
        settled(laid(p, base).values, laid(p, base).ops, sign(add)) == match pending_value(p) {
            Some(v) => Ok::<Stacks, ExpressionError>(
                Stacks { values: base.values.push(v), ops: base.ops.push(sign(add)) },
            ),
            None => Err(ExpressionError::Overflow),
        },
{
    lemma_operators_write_no_integer();
    lemma_tokens_differ();
    let under = with_sum(p.sum, base);
    let top = laid(p, base);
    let op = sign(add);
    assert(precedence_of(op) == 1);
    // after the product
    let mid: Result<Stacks, ExpressionError> = match pending_term(p) {
        Some(t) => Ok(Stacks { values: under.values.push(t), ops: under.ops }),
        None => Err(ExpressionError::Overflow),
    };
    assert(settled(top.values, top.ops, op) == match mid {
        Ok(m) => settled(m.values, m.ops, op),
        Err(e) => Err(e),
    }) by {
        match p.product {
            Some(x) => {
                assert(top.ops.last() == star());
                assert(top.ops.drop_last() =~= under.ops);
                lemma_reduced_top(under.values, x, p.last, star());
                lemma_applied(x, p.last);
            },
            None => {},
        }
    }
    match mid {
        Ok(m) => {
            let t = pending_term(p)->Some_0;
            match p.sum {
                Some((s, add0)) => {
                    assert(m.ops.last() == sign(add0));
                    assert(m.ops.drop_last() =~= base.ops);
                    lemma_reduced_top(base.values, s, t, sign(add0));
                    lemma_applied(s, t);
                    assert(precedence_of(sign(add0)) == 1);
                    match joined(s, t, add0) {
                        Some(v) => {
                            assert(settled(base.values.push(v), base.ops, op) == Ok::<
                                Stacks,
                                ExpressionError,
                            >(Stacks { values: base.values.push(v), ops: base.ops.push(op) }));
                        },
                        None => {},
                    }
                },
                None => {},
            }
        },
        Err(_) => {},
    }
}

/// A `)` asks for all that is pending, and takes the `(` below it away.
pub proof fn lemma_parenthesis_closes(p: Pending, base: Stacks)
    requires
        sealed(base),
        base.ops.len() > 0,
    ensures
        closed(laid(p, base).values, laid(p, base).ops) == match pending_value(p) {
            Some(v) => Ok::<Stacks, ExpressionError>(
                Stacks { values: base.values.push(v), ops: base.ops.drop_last() },
            ),
            None => Err(ExpressionError::Overflow),
        },
{
    lemma_operators_write_no_integer();
    lemma_tokens_differ();
    let under = with_sum(p.sum, base);
    let top = laid(p, base);
    let mid: Result<Stacks, ExpressionError> = match pending_term(p) {
        Some(t) => Ok(Stacks { values: under.values.push(t), ops: under.ops }),
        None => Err(ExpressionError::Overflow),
    };
    assert(closed(top.values, top.ops) == match mid {
        Ok(m) => closed(m.values, m.ops),
        Err(e) => Err(e),
    }) by {
        match p.product {
            Some(x) => {
                assert(top.ops.last() == star());
                assert(top.ops.drop_last() =~= under.ops);
                lemma_reduced_top(under.values, x, p.last, star());
                lemma_applied(x, p.last);
            },
            None => {},
        }
    }
    match mid {
        Ok(m) => {
            let t = pending_term(p)->Some_0;
            match p.sum {
                Some((s, add0)) => {
                    assert(m.ops.last() == sign(add0));
                    assert(m.ops.drop_last() =~= base.ops);
                    lemma_reduced_top(base.values, s, t, sign(add0));
                    lemma_applied(s, t);
                    match joined(s, t, add0) {
                        Some(v) => {
                            assert(closed(base.values.push(v), base.ops) == Ok::<
                                Stacks,
                                ExpressionError,
                            >(Stacks { values: base.values.push(v), ops: base.ops.drop_last() }));
                        },
                        None => {},
                    }
                },
                None => {},
            }
        },
        Err(_) => {},
    }
}

/// The end of the tokens asks for all that is pending, as the result.
pub proof fn lemma_input_ends(p: Pending, base: Stacks)
    requires
        base.ops.len() == 0,
    ensures
        finished(laid(p, base).values, laid(p, base).ops) == owed(pending_value(p)),
{
    lemma_operators_write_no_integer();
    lemma_tokens_differ();
    let under = with_sum(p.sum, base);
    let top = laid(p, base);
    let mid: Result<Stacks, ExpressionError> = match pending_term(p) {
        Some(t) => Ok(Stacks { values: under.values.push(t), ops: under.ops }),
        None => Err(ExpressionError::Overflow),
    };
    assert(finished(top.values, top.ops) == match mid {
        Ok(m) => finished(m.values, m.ops),
        Err(e) => Err(e),
    }) by {
        match p.product {
            Some(x) => {
                assert(top.ops.last() == star());
                assert(top.ops.drop_last() =~= under.ops);
                lemma_reduced_top(under.values, x, p.last, star());
                lemma_applied(x, p.last);
            },
            None => {},
        }
    }
    match mid {
        Ok(m) => {
            let t = pending_term(p)->Some_0;
            match p.sum {
                Some((s, add0)) => {
                    assert(m.ops.last() == sign(add0));
                    assert(m.ops.drop_last() =~= base.ops);
                    lemma_reduced_top(base.values, s, t, sign(add0));
                    lemma_applied(s, t);
                    match joined(s, t, add0) {
                        Some(v) => {
                            assert(finished(base.values.push(v), base.ops) == Ok::<
                                i128,
                                ExpressionError,
                            >(v));
                        },
                        None => {},
                    }
                },
                None => {},
            }
        },
        Err(_) => {},
    }
}

/// What is pending once a term is read, after the sum so far.
pub open spec fn term_pending(
    t: Term,
    sum: Option<(i128, bool)>,
    bindings: Map<Seq<char>, i128>,
) -> Option<Pending> {
    match t {
        Term::One(f) => match f.value(bindings) {
            Some(x) => Some(Pending { sum: sum, product: None, last: x }),
            None => None,
        },
        Term::Times(t0, f) => match (t0.value(bindings), f.value(bindings)) {
            (Some(p), Some(x)) => Some(Pending { sum: sum, product: Some(p), last: x }),
            _ => None,
        },
    }
}

/// What is pending once a sum is read.
pub open spec fn sum_pending(s: Sum, bindings: Map<Seq<char>, i128>) -> Option<Pending> {
    match s {
        Sum::One(t) => term_pending(t, None, bindings),
        Sum::Plus(s0, t) => match s0.value(bindings) {
            Some(v) => term_pending(t, Some((v, true)), bindings),
            None => None,
        },
        Sum::Minus(s0, t) => match s0.value(bindings) {
            Some(v) => term_pending(t, Some((v, false)), bindings),
            None => None,
        },
    }
}

/// The stacks that a run owes when what is pending is laid on a base.
pub open spec fn owed_stacks(p: Option<Pending>, base: Stacks) -> Result<Stacks, ExpressionError> {
    match p {
        Some(p) => Ok(laid(p, base)),
        None => Err(ExpressionError::Overflow),
    }
}

/// A factor leaves its value on the operands, and the operators as they were.
pub proof fn lemma_factor(f: Factor, s: Stacks, bindings: Map<Seq<char>, i128>)
    requires
        f.well_formed(bindings),
        operators_free(bindings),
    ensures
        run(s, f.tokens(), bindings) == match f.value(bindings) {
            Some(x) => Ok(Stacks { values: s.values.push(x), ops: s.ops }),
            None => Err(ExpressionError::Overflow),
        },
    decreases f, 1nat,
{
    lemma_operators_write_no_integer();
    lemma_tokens_differ();
    match f {
        Factor::Operand(t) => {
            lemma_run_one(s, t, bindings);
        },
        Factor::Group(sum) => {
            let inner = Stacks { values: s.values, ops: s.ops.push(opening()) };
            let head = seq![opening()] + sum.tokens();
            lemma_run_append(s, head, seq![closing()], bindings);
            lemma_run_append(s, seq![opening()], sum.tokens(), bindings);
            lemma_run_one(s, opening(), bindings);
            assert(stepped(s, opening(), bindings) == Ok::<Stacks, ExpressionError>(inner));
            lemma_sum(*sum, inner, bindings);
            match sum_pending(*sum, bindings) {
                Some(p) => {
                    let top = laid(p, inner);
                    lemma_run_one(top, closing(), bindings);
                    assert(closing() != opening()) by {
                        assert(closing()[0] == ')');
                        assert(opening()[0] == '(');
                    }
                    assert(stepped(top, closing(), bindings) == closed(top.values, top.ops));
                    lemma_parenthesis_closes(p, inner);
                    assert(inner.ops.drop_last() =~= s.ops);
                },
                None => {},
            }
        },
    }
}

/// A term read on a sealed base, after the sum so far, leaves its last
/// factor on top of the product of the others.
pub proof fn lemma_term(
    t: Term,
    sum: Option<(i128, bool)>,
    base: Stacks,
    bindings: Map<Seq<char>, i128>,
)
    requires
        sealed(base),
        t.well_formed(bindings),
        operators_free(bindings),
    ensures
        run(with_sum(sum, base), t.tokens(), bindings) == owed_stacks(
            term_pending(t, sum, bindings),
            base,
        ),
    decreases t, 1nat,
{
    lemma_operators_write_no_integer();
    lemma_tokens_differ();
    let start = with_sum(sum, base);
    match t {
        Term::One(f) => {
            lemma_factor(f, start, bindings);
        },
        Term::Times(t0, f) => {
            let head = t0.tokens() + seq![star()];
            lemma_run_append(start, head, f.tokens(), bindings);
            lemma_run_append(start, t0.tokens(), seq![star()], bindings);
            lemma_term(*t0, sum, base, bindings);
            match term_pending(*t0, sum, bindings) {
                Some(was) => {
                    let top = laid(was, base);
                    lemma_run_one(top, star(), bindings);
                    assert(star() != closing()) by {
                        assert(closing()[0] == ')');
                        assert(star()[0] == '*');
                    }
                    assert(stepped(top, star(), bindings) == settled(top.values, top.ops, star()));
                    lemma_star_arrives(was, base);
                    lemma_term_pending_value(*t0, sum, bindings);
                    match t0.value(bindings) {
                        Some(product) => {
                            let waiting = Stacks {
                                values: start.values.push(product),
                                ops: start.ops.push(star()),
                            };
                            lemma_factor(f, waiting, bindings);
                        },
                        None => {},
                    }
                },
                None => {},
            }
        },
    }
}

/// A sum read on a sealed base leaves its last term pending on top of the
/// sum of the others.
pub proof fn lemma_sum(s: Sum, base: Stacks, bindings: Map<Seq<char>, i128>)
    requires
        sealed(base),
        s.well_formed(bindings),
        operators_free(bindings),
    ensures
        run(base, s.tokens(), bindings) == owed_stacks(sum_pending(s, bindings), base),
        sum_pending(s, bindings) matches Some(p) ==> pending_value(p) == s.value(bindings),
        sum_pending(s, bindings) is None ==> s.value(bindings) is None,
    decreases s, 1nat,
{
    lemma_operators_write_no_integer();
    lemma_tokens_differ();
    assert(plus() != closing() && minus() != closing()) by {
        assert(closing()[0] == ')');
        assert(plus()[0] == '+');
        assert(minus()[0] == '-');
    }
    match s {
        Sum::One(t) => {
            lemma_term(t, None, base, bindings);
            lemma_term_pending_value(t, None, bindings);
        },
        Sum::Plus(s0, t) => {
            let head = s0.tokens() + seq![sign(true)];
            lemma_run_append(base, head, t.tokens(), bindings);
            lemma_run_append(base, s0.tokens(), seq![sign(true)], bindings);
            lemma_sum(*s0, base, bindings);
            match sum_pending(*s0, bindings) {
                Some(was) => {
                    let top = laid(was, base);
                    lemma_run_one(top, sign(true), bindings);
                    assert(stepped(top, sign(true), bindings) == settled(
                        top.values,
                        top.ops,
                        sign(true),
                    ));
                    lemma_sign_arrives(was, base, true);
                },
                None => {},
            }
            match s0.value(bindings) {
                Some(v) => {
                    lemma_term(t, Some((v, true)), base, bindings);
                    lemma_term_pending_value(t, Some((v, true)), bindings);
                },
                None => {},
            }
        },
        Sum::Minus(s0, t) => {
            let head = s0.tokens() + seq![sign(false)];
            lemma_run_append(base, head, t.tokens(), bindings);
            lemma_run_append(base, s0.tokens(), seq![sign(false)], bindings);
            lemma_sum(*s0, base, bindings);
            match sum_pending(*s0, bindings) {
                Some(was) => {
                    let top = laid(was, base);
                    lemma_run_one(top, sign(false), bindings);
                    assert(stepped(top, sign(false), bindings) == settled(
                        top.values,
                        top.ops,
                        sign(false),
                    ));
                    lemma_sign_arrives(was, base, false);
                },
                None => {},
            }
            match s0.value(bindings) {
                Some(v) => {
                    lemma_term(t, Some((v, false)), base, bindings);
                    lemma_term_pending_value(t, Some((v, false)), bindings);
                },
                None => {},
            }
        },
    }
}

/// What is pending after a term stands for the value of the term.
pub proof fn lemma_term_pending_value(
    t: Term,
    sum: Option<(i128, bool)>,
    bindings: Map<Seq<char>, i128>,
)
    ensures
        term_pending(t, sum, bindings) matches Some(p) ==> pending_term(p) == t.value(bindings)
            && p.sum == sum,
        term_pending(t, sum, bindings) is None ==> t.value(bindings) is None,
{
    match t {
        Term::One(f) => {},
        Term::Times(t0, f) => {},
    }
}

/// The evaluator gives a sum of products its usual value: `*` before `+`
/// and `-`, each from left to right, parentheses first; or an overflow,
/// where a result on the way is out of range.
pub proof fn lemma_evaluates_as_read(s: Sum, bindings: Map<Seq<char>, i128>)
    requires
        s.well_formed(bindings),
        operators_free(bindings),
    ensures
        value_of(s.tokens(), bindings) == owed(s.value(bindings)),
{
    let base = Stacks { values: Seq::empty(), ops: Seq::empty() };
    lemma_sum(s, base, bindings);
    match sum_pending(s, bindings) {
        Some(p) => {
            lemma_input_ends(p, base);
        },
        None => {},
    }
}

/// Whether a token on the operators is none that the evaluator carries out
/// and no `(`.
pub open spec fn unknown(op: Seq<char>) -> bool {
    op != plus() && op != minus() && op != star() && op != opening()
}

/// Whether an unknown token waits among the operators.
pub open spec fn tainted(ops: Seq<Seq<char>>) -> bool {
    exists|i: int| 0 <= i < ops.len() && unknown(#[trigger] ops[i])
}

/// The stacks that a step leaves are tainted, if it leaves any.
pub open spec fn stays_tainted(r: Result<Stacks, ExpressionError>) -> bool {
    match r {
        Ok(s) => tainted(s.ops),
        Err(_) => true,
    }
}

/// Only `+`, `-` and `*` are applied.
proof fn lemma_unknown_is_not_applied(values: Seq<i128>, op: Seq<char>)
    requires
        op != plus() && op != minus() && op != star(),
    ensures
        reduced(values, op) is Err,
{
}

/// An unknown token that is not on top is below.
proof fn lemma_taint_below(ops: Seq<Seq<char>>)
    requires
        tainted(ops),
        ops.len() > 0,
        !unknown(ops.last()),
    ensures
        tainted(ops.drop_last()),
{
    let i = choose|i: int| 0 <= i < ops.len() && unknown(#[trigger] ops[i]);
    assert(ops.drop_last()[i] == ops[i]);
}

/// An unknown token stays among the operators when one more is pushed.
proof fn lemma_taint_stays_under(ops: Seq<Seq<char>>, op: Seq<char>)
    requires
        tainted(ops) || unknown(op),
    ensures
        tainted(ops.push(op)),
{
    if tainted(ops) {
        let i = choose|i: int| 0 <= i < ops.len() && unknown(#[trigger] ops[i]);
        assert(ops.push(op)[i] == ops[i]);
    } else {
        assert(ops.push(op)[ops.len() as int] == op);
    }
}

/// A `)` does not take an unknown token away without failing.
proof fn lemma_closed_stays_tainted(values: Seq<i128>, ops: Seq<Seq<char>>)
    requires
        tainted(ops),
    ensures
        stays_tainted(closed(values, ops)),
    decreases ops.len(),
{
    if ops.len() > 0 {
        if ops.last() == opening() {
            lemma_taint_below(ops);
        } else if unknown(ops.last()) {
            lemma_unknown_is_not_applied(values, ops.last());
        } else {
            lemma_taint_below(ops);
            match reduced(values, ops.last()) {
                Ok(rest) => {
                    lemma_closed_stays_tainted(rest, ops.drop_last());
                },
                Err(_) => {},
            }
        }
    }
}

/// An operator neither takes an unknown token away without failing, nor
/// arrives as one without staying.
proof fn lemma_settled_stays_tainted(values: Seq<i128>, ops: Seq<Seq<char>>, op: Seq<char>)
    requires
        tainted(ops) || unknown(op),
    ensures
        stays_tainted(settled(values, ops, op)),
    decreases ops.len(),
{
    if ops.len() == 0 || ops.last() == opening() || precedence_of(ops.last()) < precedence_of(op) {
        lemma_taint_stays_under(ops, op);
    } else if unknown(ops.last()) {
        lemma_unknown_is_not_applied(values, ops.last());
    } else {
        if tainted(ops) {
            lemma_taint_below(ops);
        }
        match reduced(values, ops.last()) {
            Ok(rest) => {
                lemma_settled_stays_tainted(rest, ops.drop_last(), op);
            },
            Err(_) => {},
        }
    }
}

/// No token takes an unknown token away without failing.
proof fn lemma_ran_stays_tainted(
    s: Stacks,
    tokens: Seq<Seq<char>>,
    from: int,
    bindings: Map<Seq<char>, i128>,
)
    requires
        0 <= from,
        tainted(s.ops),
    ensures
        stays_tainted(ran(s, tokens, from, bindings)),
    decreases tokens.len() - from,
{
    if from < tokens.len() {
        let token = tokens[from];
        if int128_of_text(token) is Some || bindings.contains_key(token) {
        } else if token == opening() {
            lemma_taint_stays_under(s.ops, token);
        } else if token == closing() {
            lemma_closed_stays_tainted(s.values, s.ops);
        } else {
            lemma_settled_stays_tainted(s.values, s.ops, token);
        }
        match stepped(s, token, bindings) {
            Ok(next) => {
                lemma_ran_stays_tainted(next, tokens, from + 1, bindings);
            },
            Err(_) => {},
        }
    }
}

/// With an unknown token among the operators there is no result.
proof fn lemma_tainted_never_finishes(values: Seq<i128>, ops: Seq<Seq<char>>)
    requires
        tainted(ops),
    ensures
        finished(values, ops) is Err,
    decreases ops.len(),
{
    if ops.len() > 0 {
        if ops.last() != plus() && ops.last() != minus() && ops.last() != star() {
            lemma_unknown_is_not_applied(values, ops.last());
        } else {
            lemma_taint_below(ops);
            match reduced(values, ops.last()) {
                Ok(rest) => {
                    lemma_tainted_never_finishes(rest, ops.drop_last());
                },
                Err(_) => {},
            }
        }
    }
}

/// A token that is no operand, no parenthesis and none of `+`, `-` and `*`
/// leaves the expression without a value, wherever it stands.
pub proof fn lemma_unknown_token_fails(
    tokens: Seq<Seq<char>>,
    bindings: Map<Seq<char>, i128>,
    at: int,
)
    requires
        0 <= at < tokens.len(),
        int128_of_text(tokens[at]) is None,
        !bindings.contains_key(tokens[at]),
        tokens[at] != closing(),
        unknown(tokens[at]),
    ensures
        value_of(tokens, bindings) is Err,
{
    let start = Stacks { values: Seq::empty(), ops: Seq::empty() };
    let head = tokens.take(at);
    let tail = tokens.skip(at);
    assert(head + tail =~= tokens);
    lemma_run_append(start, head, tail, bindings);
    match run(start, head, bindings) {
        Ok(s) => {
            assert(tail[0] == tokens[at]);
            lemma_settled_stays_tainted(s.values, s.ops, tokens[at]);
            match stepped(s, tail[0], bindings) {
                Ok(next) => {
                    lemma_ran_stays_tainted(next, tail, 1, bindings);
                    match ran(next, tail, 1, bindings) {
                        Ok(last) => {
                            lemma_tainted_never_finishes(last.values, last.ops);
                        },
                        Err(_) => {},
                    }
                },
                Err(_) => {},
            }
        },
        Err(_) => {},
    }
}

} // verus!
