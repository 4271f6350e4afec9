//! The Ved parser: a recursive-descent parser from tokens to the syntax
//! tree.
//!
//! Its behaviour is specified by the `spec_*` functions below, which read a
//! sequence of token views from a position and give the parsed value and the
//! position after it, or an error with the position where it was found. Two
//! further outcomes mark the inputs that the parser cannot handle: `Crash`
//! (the parser would panic) and `Diverge` (it would loop forever).

use vstd::prelude::*;
use crate::ast::{
    Ast, DomainDecl, DomainView, Expr, ExprView, FieldView, GoalDecl, GoalView, BlockView,
    StartDomain, StateField, Statement, StatementView, SystemDecl, SystemView, TransitionDecl,
    exprs_view_seq, fields_view, goals_view, lemma_exprs_view_push, starts_view, statements_view,
    transitions_view,
};
use crate::lexer::{Token, TokenView, plain_token_text, symbol_spelling, token_text, tokens_view};
use crate::text::{join2, join4, string_is};

verus! {

pub enum Parsed<T> {
    Done(T, int),
    Fail(Seq<char>, int),
    Crash,
    Diverge,
}

impl<T> Parsed<T> {
    /// The parser neither panics nor loops forever.
    pub open spec fn defined(self) -> bool {
        !(self is Crash) && !(self is Diverge)
    }
}

/// Why a parse stopped without a value: a syntax error with its message,
/// or an input on which the parser would panic or loop forever.
pub enum ParseStop {
    Error(String),
    Abort,
}

/// The token at `p`, or end of file past the end.
pub open spec fn spec_peek(ts: Seq<TokenView>, p: int) -> TokenView {
    if 0 <= p < ts.len() { ts[p] } else { TokenView::Plain(Token::EOF) }
}

pub open spec fn spec_at(ts: Seq<TokenView>, p: int, tok: Token) -> bool {
    spec_peek(ts, p) == TokenView::Plain(tok)
}

/// Taking a token: the one at `p` and the next position; past the end the
/// position stays and the last token is taken again; with no tokens at all
/// the parser panics.
pub open spec fn spec_adv(ts: Seq<TokenView>, p: int) -> Option<(TokenView, int)> {
    if 0 <= p < ts.len() {
        Some((ts[p], p + 1))
    } else if ts.len() > 0 {
        Some((ts[ts.len() - 1], p))
    } else {
        None
    }
}

/// The token that `spec_adv` takes.
pub open spec fn adv_token(ts: Seq<TokenView>, p: int) -> TokenView {
    match spec_adv(ts, p) {
        Some((t, _)) => t,
        None => TokenView::Plain(Token::EOF),
    }
}

/// The position after `spec_adv`.
pub open spec fn adv_next(ts: Seq<TokenView>, p: int) -> int {
    match spec_adv(ts, p) {
        Some((_, q)) => q,
        None => p,
    }
}

pub open spec fn expected_message(tok: Token, found: TokenView) -> Seq<char> {
    "Syntax Error: Expected "@ + plain_token_text(tok) + ", but found "@ + token_text(found)
}

/// Consuming the token `tok`.
pub open spec fn spec_expect(ts: Seq<TokenView>, p: int, tok: Token) -> Parsed<()> {
    if spec_at(ts, p, tok) {
        match spec_adv(ts, p) {
            Some((_, q)) => Parsed::Done((), q),
            None => Parsed::Crash,
        }
    } else {
        Parsed::Fail(expected_message(tok, spec_peek(ts, p)), p)
    }
}

/// Tokens that an expression may continue with.
pub open spec fn binop_token(t: TokenView) -> bool {
    t == TokenView::Plain(Token::Plus) || t == TokenView::Plain(Token::Minus) || t == TokenView::Plain(Token::Asterisk)
        || t == TokenView::Plain(Token::Slash) || t == TokenView::Plain(Token::EqualEqual) || t == TokenView::Plain(Token::LessThan)
        || t == TokenView::Plain(Token::GreaterThan) || t == TokenView::Plain(Token::GTEqual) || t == TokenView::Plain(Token::LTEqual)

}


/// `parse` for any tokens: `None` where the parser would panic or loop
/// forever.
pub fn try_parse(input: Vec<Token>) -> (r: Option<Result<Ast, String>>)
    ensures
        match spec_parse(tokens_view(input@)) {
            Parsed::Done(v, _) => r matches Some(Ok(a)) && a@ == v,
            Parsed::Fail(m, _) => r matches Some(Err(e)) && e@ == m,
            _ => r is None,
        },
{
    let mut parser = Parser::new(input);
    parser.try_parse()
}

/// The operator text of a supported binary operator token.
pub open spec fn op_text(t: TokenView) -> Option<Seq<char>> {
    if t == TokenView::Plain(Token::Plus) { Some("+"@) }
    else if t == TokenView::Plain(Token::Minus) { Some("-"@) }
    else if t == TokenView::Plain(Token::EqualEqual) { Some("=="@) }
    else if t == TokenView::Plain(Token::LessThan) { Some("<"@) }
    else if t == TokenView::Plain(Token::GreaterThan) { Some(">"@) }
    else if t == TokenView::Plain(Token::GTEqual) { Some(">="@) }
    else if t == TokenView::Plain(Token::LTEqual) { Some("<="@) }
    else { None }
}

/// A literal or a name as the left operand of an expression.
pub open spec fn operand(t: TokenView) -> Option<ExprView> {
    match t {
        TokenView::Plain(Token::IntLiteral(v)) => Some(ExprView::IntLiteral(v)),
        TokenView::Str(s) => Some(ExprView::StringLiteral(s)),
        TokenView::Ident(id) => Some(ExprView::Ident(id)),
        _ => None,
    }
}

/// Passes on a failure from a nested parse.
pub open spec fn fail_as<A, B>(r: Parsed<A>) -> Parsed<B> {
    match r {
        Parsed::Fail(e, q) => Parsed::Fail(e, q),
        Parsed::Diverge => Parsed::Diverge,
        _ => Parsed::Crash,
    }
}

/// An expression: an operand, optionally followed by an operator and
/// (right-associatively) another expression. `*` and `/` make the parser
/// panic.
pub open spec fn spec_expression(ts: Seq<TokenView>, p: int) -> Parsed<ExprView>
    decreases ts.len() - p,
{
    match spec_adv(ts, p) {
        None => Parsed::Crash,
        Some((t, q)) => match operand(t) {
            None => Parsed::Fail("Unexpected token in expression: "@ + token_text(t), q),
            Some(left) => if binop_token(spec_peek(ts, q)) {
                match spec_adv(ts, q) {
                    None => Parsed::Crash,
                    Some((ot, q2)) => match op_text(ot) {
                        None => Parsed::Crash,
                        Some(op) => if q2 <= p || q2 > ts.len() {
                            Parsed::Diverge
                        } else {
                            match spec_expression(ts, q2) {
                                Parsed::Done(right, q3) => Parsed::Done(
                                    ExprView::BinaryOp { left: Box::new(left), op, right: Box::new(right) },
                                    q3,
                                ),
                                other => fail_as(other),
                            }
                        },
                    },
                }
            } else {
                Parsed::Done(left, q)
            },
        },
    }
}

/// The target or message of a send: a name or a string literal.
pub open spec fn send_arg(t: TokenView) -> Option<Seq<char>> {
    match t {
        TokenView::Ident(id) => Some(id),
        TokenView::Str(s) => Some(s),
        _ => None,
    }
}

pub open spec fn send_keyword(high: bool) -> Seq<char> {
    if high { "send_high"@ } else { "send"@ }
}

/// The two arguments of a send written without parentheses,
/// `send target message`, from `q`.
pub open spec fn spec_bare_send(ts: Seq<TokenView>, q: int, high: bool) -> Parsed<ExprView> {
    match spec_adv(ts, q) {
        None => Parsed::Crash,
        Some((t1, q1)) => match send_arg(t1) {
            None => Parsed::Fail(
                "Expected target string or identifier for "@ + send_keyword(high) + ", got "@ + token_text(t1),
                q1,
            ),
            Some(target) => match spec_adv(ts, q1) {
                None => Parsed::Crash,
                Some((t2, q2)) => match send_arg(t2) {
                    None => Parsed::Fail(
                        "Expected message string or identifier for "@ + send_keyword(high) + ", got "@ + token_text(t2),
                        q2,
                    ),
                    Some(message) => Parsed::Done(
                        if high { ExprView::SendHigh { target, message } } else { ExprView::Send { target, message } },
                        q2,
                    ),
                },
            },
        },
    }
}

/// `send(target, message)` or `send_high(target, message)` at `p`; the
/// parentheses and the comma may be left out: `send target message`.
pub open spec fn spec_send(ts: Seq<TokenView>, p: int, high: bool) -> Parsed<ExprView> {
    match spec_expect(ts, p, if high { Token::SendHigh } else { Token::Send }) {
        Parsed::Done(_, q1) => if !spec_at(ts, q1, Token::LParen) { spec_bare_send(ts, q1, high) } else { match spec_expect(ts, q1, Token::LParen) {
            Parsed::Done(_, q2) => match spec_adv(ts, q2) {
                None => Parsed::Crash,
                Some((t1, q3)) => match send_arg(t1) {
                    None => Parsed::Fail(
                        "Expected target string or identifier for "@ + send_keyword(high) + ", got "@ + token_text(t1),
                        q3,
                    ),
                    Some(target) => match spec_expect(ts, q3, Token::Comma) {
                        Parsed::Done(_, q4) => match spec_adv(ts, q4) {
                            None => Parsed::Crash,
                            Some((t2, q5)) => match send_arg(t2) {
                                None => Parsed::Fail(
                                    "Expected message string or identifier for "@ + send_keyword(high) + ", got "@ + token_text(t2),
                                    q5,
                                ),
                                Some(message) => match spec_expect(ts, q5, Token::RParen) {
                                    Parsed::Done(_, q6) => Parsed::Done(
                                        if high { ExprView::SendHigh { target, message } } else { ExprView::Send { target, message } },
                                        q6,
                                    ),
                                    other => fail_as(other),
                                },
                            },
                        },
                        other => fail_as(other),
                    },
                },
            },
            other => fail_as(other),
        } },
        other => fail_as(other),
    }
}

/// A statement that starts with a name: an assignment, a binary expression
/// with the name on the left, or the name alone.
pub open spec fn spec_named(ts: Seq<TokenView>, p: int) -> Parsed<ExprView> {
    match spec_adv(ts, p) {
        Some((TokenView::Ident(id), q1)) => {
            if spec_at(ts, q1, Token::Equal) {
                match spec_expect(ts, q1, Token::Equal) {
                    Parsed::Done(_, q2) => match spec_expression(ts, q2) {
                        Parsed::Done(v, q3) => Parsed::Done(ExprView::Assignment { target: id, value: Box::new(v) }, q3),
                        other => fail_as(other),
                    },
                    other => fail_as(other),
                }
            } else if binop_token(spec_peek(ts, q1)) {
                match spec_adv(ts, q1) {
                    None => Parsed::Crash,
                    Some((ot, q2)) => match op_text(ot) {
                        None => Parsed::Fail("Unsupported op"@, q2),
                        Some(op) => match spec_expression(ts, q2) {
                            Parsed::Done(r, q3) => Parsed::Done(
                                ExprView::BinaryOp { left: Box::new(ExprView::Ident(id)), op, right: Box::new(r) },
                                q3,
                            ),
                            other => fail_as(other),
                        },
                    },
                }
            } else {
                Parsed::Done(ExprView::Ident(id), q1)
            }
        },
        _ => Parsed::Crash,
    }
}

/// One statement of a block.
pub open spec fn spec_statement(ts: Seq<TokenView>, p: int) -> Parsed<ExprView>
    decreases ts.len() - p, 1nat,
{
    let t = spec_peek(ts, p);
    if t == TokenView::Plain(Token::Send) {
        spec_send(ts, p, false)
    } else if t == TokenView::Plain(Token::SendHigh) {
        spec_send(ts, p, true)
    } else if t == TokenView::Plain(Token::If) {
        match spec_expect(ts, p, Token::If) {
            Parsed::Done(_, q1) => match spec_expression(ts, q1) {
                Parsed::Done(cond, q2) => match spec_expect(ts, q2, Token::LBrace) {
                    Parsed::Done(_, q3) => if q3 <= p || q3 > ts.len() {
                        Parsed::Diverge
                    } else {
                        match spec_block(ts, q3, Seq::empty(), false) {
                            Parsed::Done(body, q4) => match spec_expect(ts, q4, Token::RBrace) {
                                Parsed::Done(_, q5) => Parsed::Done(ExprView::If { condition: Box::new(cond), consequence: body }, q5),
                                other => fail_as(other),
                            },
                            other => fail_as(other),
                        }
                    },
                    other => fail_as(other),
                },
                other => fail_as(other),
            },
            other => fail_as(other),
        }
    } else if t is Ident {
        spec_named(ts, p)
    } else {
        spec_expression(ts, p)
    }
}

/// Statements up to a closing brace (or, when `eof_ends`, the end of the
/// tokens), after the statements `acc` already read.
pub open spec fn spec_block(ts: Seq<TokenView>, p: int, acc: Seq<ExprView>, eof_ends: bool) -> Parsed<Seq<ExprView>>
    decreases ts.len() - p, 2nat,
{
    if spec_at(ts, p, Token::RBrace) || (eof_ends && spec_at(ts, p, Token::EOF)) {
        Parsed::Done(acc, p)
    } else if p < 0 || p > ts.len() {
        Parsed::Diverge
    } else {
        match spec_statement(ts, p) {
            Parsed::Done(e, q) => if q <= p || q > ts.len() {
                Parsed::Diverge
            } else {
                spec_block(ts, q, acc.push(e), eof_ends)
            },
            other => fail_as(other),
        }
    }
}

/// A name taken as the next token, or the error `message(found)`.
pub open spec fn spec_name(ts: Seq<TokenView>, p: int, message: spec_fn(TokenView) -> Seq<char>) -> Parsed<Seq<char>> {
    match spec_adv(ts, p) {
        None => Parsed::Crash,
        Some((TokenView::Ident(id), q)) => Parsed::Done(id, q),
        Some((t, q)) => Parsed::Fail(message(t), q),
    }
}

/// The fields of a state block, after the fields `acc` already read.
pub open spec fn spec_fields(ts: Seq<TokenView>, p: int, acc: Seq<FieldView>) -> Parsed<Seq<FieldView>>
    decreases ts.len() - p,
{
    if spec_at(ts, p, Token::RBrace) || spec_at(ts, p, Token::EOF) {
        Parsed::Done(acc, p)
    } else {
        match spec_name(ts, p, |t: TokenView| "Expected state field name, found "@ + token_text(t)) {
            Parsed::Done(name, q1) => match spec_expect(ts, q1, Token::Colon) {
                Parsed::Done(_, q2) => match spec_name(ts, q2, |t: TokenView| "Expected type for field "@ + name + ", found "@ + token_text(t)) {
                    Parsed::Done(typ, q3) => if q3 <= p || q3 > ts.len() {
                        Parsed::Diverge
                    } else {
                        spec_fields(ts, q3, acc.push((name, typ)))
                    },
                    other => fail_as(other),
                },
                other => fail_as(other),
            },
            other => fail_as(other),
        }
    }
}

/// `state { name: type ... }`.
pub open spec fn spec_state_block(ts: Seq<TokenView>, p: int) -> Parsed<Seq<FieldView>> {
    match spec_expect(ts, p, Token::State) {
        Parsed::Done(_, q1) => match spec_expect(ts, q1, Token::LBrace) {
            Parsed::Done(_, q2) => match spec_fields(ts, q2, Seq::empty()) {
                Parsed::Done(fs, q3) => match spec_expect(ts, q3, Token::RBrace) {
                    Parsed::Done(_, q4) => Parsed::Done(fs, q4),
                    other => fail_as(other),
                },
                other => fail_as(other),
            },
            other => fail_as(other),
        },
        other => fail_as(other),
    }
}

/// Skips the tokens of a strategy block up to its closing brace.
pub open spec fn spec_skip_block(ts: Seq<TokenView>, p: int) -> Parsed<()>
    decreases ts.len() - p,
{
    if spec_at(ts, p, Token::RBrace) || spec_at(ts, p, Token::EOF) {
        Parsed::Done((), p)
    } else {
        match spec_adv(ts, p) {
            None => Parsed::Crash,
            Some((_, q)) => if q <= p || q > ts.len() { Parsed::Diverge } else { spec_skip_block(ts, q) },
        }
    }
}

pub open spec fn goal_keyword_message(found: TokenView) -> Seq<char> {
    "Expected 'target' or 'predicate' for goal, found "@ + token_text(found)
}

/// The `target` (or `predicate`) keyword that introduces a goal's
/// predicate.
pub open spec fn spec_goal_keyword(ts: Seq<TokenView>, p: int) -> Parsed<()> {
    if spec_at(ts, p, Token::Target) {
        spec_expect(ts, p, Token::Target)
    } else {
        match spec_peek(ts, p) {
            TokenView::Ident(id) => if id == "predicate"@ {
                match spec_adv(ts, p) {
                    Some((_, q)) => Parsed::Done((), q),
                    None => Parsed::Crash,
                }
            } else {
                Parsed::Fail(goal_keyword_message(spec_peek(ts, p)), p)
            },
            _ => Parsed::Fail(goal_keyword_message(spec_peek(ts, p)), p),
        }
    }
}

/// An optional `strategy { ... }` block, whose content is skipped.
pub open spec fn spec_strategy(ts: Seq<TokenView>, p: int) -> Parsed<()> {
    if spec_at(ts, p, Token::Strategy) {
        match spec_expect(ts, p, Token::Strategy) {
            Parsed::Done(_, q1) => match spec_expect(ts, q1, Token::LBrace) {
                Parsed::Done(_, q2) => match spec_skip_block(ts, q2) {
                    Parsed::Done(_, q3) => spec_expect(ts, q3, Token::RBrace),
                    other => fail_as(other),
                },
                other => fail_as(other),
            },
            other => fail_as(other),
        }
    } else {
        Parsed::Done((), p)
    }
}

/// `capability { ... }`: a capability declaration, whose content is
/// skipped.
pub open spec fn spec_capability(ts: Seq<TokenView>, p: int) -> Parsed<()> {
    match spec_expect(ts, p, Token::Capability) {
        Parsed::Done(_, q1) => match spec_expect(ts, q1, Token::LBrace) {
            Parsed::Done(_, q2) => match spec_skip_block(ts, q2) {
                Parsed::Done(_, q3) => spec_expect(ts, q3, Token::RBrace),
                other => fail_as(other),
            },
            other => fail_as(other),
        },
        other => fail_as(other),
    }
}

/// An optional capability declaration.
pub open spec fn spec_opt_capability(ts: Seq<TokenView>, p: int) -> Parsed<()> {
    if spec_at(ts, p, Token::Capability) { spec_capability(ts, p) } else { Parsed::Done((), p) }
}

/// `goal name { target expr [strategy { ... }] }`.
pub open spec fn spec_goal(ts: Seq<TokenView>, p: int) -> Parsed<GoalView> {
    match spec_expect(ts, p, Token::Goal) {
        Parsed::Done(_, q1) => match spec_name(ts, q1, |t: TokenView| "Expected goal name, found "@ + token_text(t)) {
            Parsed::Done(name, q2) => match spec_expect(ts, q2, Token::LBrace) {
                Parsed::Done(_, q3) => match spec_goal_keyword(ts, q3) {
                    Parsed::Done(_, q4) => match spec_expression(ts, q4) {
                        Parsed::Done(target, q5) => match spec_strategy(ts, q5) {
                            Parsed::Done(_, q6) => match spec_expect(ts, q6, Token::RBrace) {
                                Parsed::Done(_, q7) => Parsed::Done((name, target), q7),
                                other => fail_as(other),
                            },
                            other => fail_as(other),
                        },
                        other => fail_as(other),
                    },
                    other => fail_as(other),
                },
                other => fail_as(other),
            },
            other => fail_as(other),
        },
        other => fail_as(other),
    }
}

/// An optional `slice` keyword.
pub open spec fn spec_opt_slice(ts: Seq<TokenView>, p: int) -> Parsed<()> {
    if spec_at(ts, p, Token::Slice) { spec_expect(ts, p, Token::Slice) } else { Parsed::Done((), p) }
}

/// `transition name { [capability { ... }] [slice] step { statements } }`.
pub open spec fn spec_transition(ts: Seq<TokenView>, p: int) -> Parsed<BlockView> {
    match spec_expect(ts, p, Token::Transition) {
        Parsed::Done(_, q1) => match spec_name(ts, q1, |t: TokenView| "Expected transition name, found "@ + token_text(t)) {
            Parsed::Done(name, q2) => match spec_expect(ts, q2, Token::LBrace) {
                Parsed::Done(_, q2c) => match spec_opt_capability(ts, q2c) {
                Parsed::Done(_, q3) => match spec_opt_slice(ts, q3) {
                    Parsed::Done(_, q4) => match spec_expect(ts, q4, Token::Step) {
                        Parsed::Done(_, q5) => match spec_expect(ts, q5, Token::LBrace) {
                            Parsed::Done(_, q6) => match spec_block(ts, q6, Seq::empty(), true) {
                                Parsed::Done(body, q7) => match spec_expect(ts, q7, Token::RBrace) {
                                    Parsed::Done(_, q8) => match spec_expect(ts, q8, Token::RBrace) {
                                        Parsed::Done(_, q9) => Parsed::Done((name, body), q9),
                                        other => fail_as(other),
                                    },
                                    other => fail_as(other),
                                },
                                other => fail_as(other),
                            },
                            other => fail_as(other),
                        },
                        other => fail_as(other),
                    },
                    other => fail_as(other),
                },
                other => fail_as(other),
                },
                other => fail_as(other),
            },
            other => fail_as(other),
        },
        other => fail_as(other),
    }
}

/// A domain with a name and no members yet.
pub open spec fn empty_domain(name: Seq<char>) -> DomainView {
    DomainView { name, state: Seq::empty(), goals: Seq::empty(), transitions: Seq::empty() }
}

/// The view of a domain's members as the parser collects them.
pub open spec fn members_view(name: Seq<char>, state: Vec<StateField>, goals: Vec<GoalDecl>, transitions: Vec<TransitionDecl>) -> DomainView {
    DomainView { name, state: fields_view(state@), goals: goals_view(goals@), transitions: transitions_view(transitions@) }
}

/// The members of a domain body up to its closing brace; a later state
/// block replaces an earlier one, and capability declarations are skipped.
pub open spec fn spec_domain_body(ts: Seq<TokenView>, p: int, d: DomainView) -> Parsed<DomainView>
    decreases ts.len() - p,
{
    if spec_at(ts, p, Token::RBrace) || spec_at(ts, p, Token::EOF) {
        Parsed::Done(d, p)
    } else if spec_at(ts, p, Token::State) {
        match spec_state_block(ts, p) {
            Parsed::Done(fs, q) => if q <= p || q > ts.len() {
                Parsed::Diverge
            } else {
                spec_domain_body(ts, q, DomainView { state: fs, ..d })
            },
            other => fail_as(other),
        }
    } else if spec_at(ts, p, Token::Goal) {
        match spec_goal(ts, p) {
            Parsed::Done(g, q) => if q <= p || q > ts.len() {
                Parsed::Diverge
            } else {
                spec_domain_body(ts, q, DomainView { goals: d.goals.push(g), ..d })
            },
            other => fail_as(other),
        }
    } else if spec_at(ts, p, Token::Capability) {
        match spec_capability(ts, p) {
            Parsed::Done(_, q) => if q <= p || q > ts.len() {
                Parsed::Diverge
            } else {
                spec_domain_body(ts, q, d)
            },
            other => fail_as(other),
        }
    } else if spec_at(ts, p, Token::Transition) {
        match spec_transition(ts, p) {
            Parsed::Done(t, q) => if q <= p || q > ts.len() {
                Parsed::Diverge
            } else {
                spec_domain_body(ts, q, DomainView { transitions: d.transitions.push(t), ..d })
            },
            other => fail_as(other),
        }
    } else {
        Parsed::Fail("Unexpected token in domain body: "@ + token_text(spec_peek(ts, p)), p)
    }
}

/// `domain name { ... }`.
pub open spec fn spec_domain(ts: Seq<TokenView>, p: int) -> Parsed<DomainView> {
    match spec_expect(ts, p, Token::Domain) {
        Parsed::Done(_, q1) => match spec_name(ts, q1, |t: TokenView| "Expected identifier after 'domain', found "@ + token_text(t)) {
            Parsed::Done(name, q2) => match spec_expect(ts, q2, Token::LBrace) {
                Parsed::Done(_, q3) => match spec_domain_body(ts, q3, empty_domain(name)) {
                    Parsed::Done(d, q4) => match spec_expect(ts, q4, Token::RBrace) {
                        Parsed::Done(_, q5) => Parsed::Done(d, q5),
                        other => fail_as(other),
                    },
                    other => fail_as(other),
                },
                other => fail_as(other),
            },
            other => fail_as(other),
        },
        other => fail_as(other),
    }
}

/// `start domain name { statements }`.
pub open spec fn spec_start(ts: Seq<TokenView>, p: int) -> Parsed<BlockView> {
    match spec_expect(ts, p, Token::Start) {
        Parsed::Done(_, q1) => match spec_expect(ts, q1, Token::Domain) {
            Parsed::Done(_, q2) => match spec_name(ts, q2, |t: TokenView| "Expected domain name"@) {
                Parsed::Done(name, q3) => match spec_expect(ts, q3, Token::LBrace) {
                    Parsed::Done(_, q4) => match spec_block(ts, q4, Seq::empty(), false) {
                        Parsed::Done(body, q5) => match spec_expect(ts, q5, Token::RBrace) {
                            Parsed::Done(_, q6) => Parsed::Done((name, body), q6),
                            other => fail_as(other),
                        },
                        other => fail_as(other),
                    },
                    other => fail_as(other),
                },
                other => fail_as(other),
            },
            other => fail_as(other),
        },
        other => fail_as(other),
    }
}

/// The start blocks of a system, after those in `acc`.
pub open spec fn spec_starts(ts: Seq<TokenView>, p: int, acc: Seq<BlockView>) -> Parsed<Seq<BlockView>>
    decreases ts.len() - p,
{
    if spec_at(ts, p, Token::Start) {
        match spec_start(ts, p) {
            Parsed::Done(b, q) => if q <= p || q > ts.len() {
                Parsed::Diverge
            } else {
                spec_starts(ts, q, acc.push(b))
            },
            other => fail_as(other),
        }
    } else {
        Parsed::Done(acc, p)
    }
}

/// `system name { start domain ... }`.
pub open spec fn spec_system(ts: Seq<TokenView>, p: int) -> Parsed<SystemView> {
    match spec_expect(ts, p, Token::System) {
        Parsed::Done(_, q1) => match spec_name(ts, q1, |t: TokenView| "Expected system name"@) {
            Parsed::Done(name, q2) => match spec_expect(ts, q2, Token::LBrace) {
                Parsed::Done(_, q3) => match spec_starts(ts, q3, Seq::empty()) {
                    Parsed::Done(starts, q4) => match spec_expect(ts, q4, Token::RBrace) {
                        Parsed::Done(_, q5) => Parsed::Done(SystemView { name, start_domains: starts }, q5),
                        other => fail_as(other),
                    },
                    other => fail_as(other),
                },
                other => fail_as(other),
            },
            other => fail_as(other),
        },
        other => fail_as(other),
    }
}

/// Top-level declarations up to the end of file, after those in `acc`.
pub open spec fn spec_program(ts: Seq<TokenView>, p: int, acc: Seq<StatementView>) -> Parsed<Seq<StatementView>>
    decreases ts.len() - p,
{
    if spec_at(ts, p, Token::EOF) {
        Parsed::Done(acc, p)
    } else if spec_at(ts, p, Token::Domain) {
        match spec_domain(ts, p) {
            Parsed::Done(d, q) => if q <= p || q > ts.len() {
                Parsed::Diverge
            } else {
                spec_program(ts, q, acc.push(StatementView::DomainDecl(d)))
            },
            other => fail_as(other),
        }
    } else if spec_at(ts, p, Token::System) {
        match spec_system(ts, p) {
            Parsed::Done(s, q) => if q <= p || q > ts.len() {
                Parsed::Diverge
            } else {
                spec_program(ts, q, acc.push(StatementView::SystemDecl(s)))
            },
            other => fail_as(other),
        }
    } else {
        Parsed::Fail("Unexpected token at top level: "@ + token_text(spec_peek(ts, p)), p)
    }
}

/// What parsing the token views `ts` gives.
pub open spec fn spec_parse(ts: Seq<TokenView>) -> Parsed<Seq<StatementView>> {
    spec_program(ts, 0, Seq::empty())
}

/// `r` and the position `pos` after the call are what `o` says, with `f`
/// taking the value to its view.
pub open spec fn outcome_is<T, V>(r: Result<T, String>, pos: int, o: Parsed<V>, f: spec_fn(T) -> V) -> bool {
    match o {
        Parsed::Done(v, q) => pos == q && match r {
            Ok(x) => f(x) == v,
            Err(_) => false,
        },
        Parsed::Fail(m, q) => pos == q && match r {
            Ok(_) => false,
            Err(e) => e@ == m,
        },
        _ => false,
    }
}

/// `r` and the position `pos` after the call are what `o` says, with `f`
/// taking the value to its view; inputs the parser cannot handle stop with
/// `Abort`.
pub open spec fn stop_outcome_is<T, V>(r: Result<T, ParseStop>, pos: int, o: Parsed<V>, f: spec_fn(T) -> V) -> bool {
    match o {
        Parsed::Done(v, q) => pos == q && match r {
            Ok(x) => f(x) == v,
            Err(_) => false,
        },
        Parsed::Fail(m, q) => pos == q && match r {
            Err(ParseStop::Error(e)) => e@ == m,
            _ => false,
        },
        _ => r matches Err(ParseStop::Abort),
    }
}

pub struct Parser {
    tokens: Vec<Token>,
    pos: usize,
}

/// Whether a token is written with no text of its own (every token but an
/// identifier or a string literal).
pub open spec fn is_plain(t: Token) -> bool {
    !(t is Identifier) && !(t is StringLiteral)
}

impl Parser {
    #[verifier::type_invariant]
    closed spec fn inv(self) -> bool {
        self.pos <= self.tokens.len()
    }

    /// The views of the tokens being parsed.
    pub closed spec fn toks(self) -> Seq<TokenView> {
        tokens_view(self.tokens@)
    }

    /// The position of the next token.
    pub closed spec fn at_pos(self) -> int {
        self.pos as int
    }

    /// A parser at the start of `tokens`.
    pub fn new(tokens: Vec<Token>) -> (p: Self)
        ensures
            p.toks() == tokens_view(tokens@),
            p.at_pos() == 0,
    {
        Parser { tokens, pos: 0 }
    }

    fn peek_tok(&self) -> (t: Token)
        ensures
            t@ == spec_peek(self.toks(), self.at_pos()),
    {
        proof { use_type_invariant(self); }
        if self.pos < self.tokens.len() {
            self.tokens[self.pos].duplicate()
        } else {
            Token::EOF
        }
    }

    fn check(&self, expected: &Token) -> (r: bool)
        ensures
            r == (spec_peek(self.toks(), self.at_pos()) == expected@),
    {
        let t = self.peek_tok();
        t == *expected
    }

    fn advance(&mut self) -> (t: Token)
        requires
            spec_adv(old(self).toks(), old(self).at_pos()) is Some,
        ensures
            final(self).toks() == old(self).toks(),
            (t@, final(self).at_pos()) == spec_adv(old(self).toks(), old(self).at_pos())->0,
    {
        proof { use_type_invariant(&*self); }
        if self.pos < self.tokens.len() {
            self.pos = self.pos + 1;
        }
        self.tokens[self.pos - 1].duplicate()
    }

    fn consume(&mut self, expected: Token) -> (r: Result<(), ParseStop>)
        requires
            is_plain(expected),
            old(self).toks().len() > 0,
        ensures
            final(self).toks() == old(self).toks(),
            stop_outcome_is(r, final(self).at_pos(), spec_expect(old(self).toks(), old(self).at_pos(), expected), |u: ()| ()),
    {
        if self.check(&expected) {
            self.advance();
            Ok(())
        } else {
            let found = self.peek_tok();
            Err(ParseStop::Error(join4("Syntax Error: Expected ", expected.describe().as_str(), ", but found ", found.describe().as_str())))
        }
    }

    /// Takes the next token; a name comes back as `Ok`, any other token as
    /// `Err`.
    fn take_name(&mut self) -> (r: Result<String, Token>)
        requires
            spec_adv(old(self).toks(), old(self).at_pos()) is Some,
        ensures
            final(self).toks() == old(self).toks(),
            final(self).at_pos() == adv_next(old(self).toks(), old(self).at_pos()),
            match adv_token(old(self).toks(), old(self).at_pos()) {
                TokenView::Ident(id) => r matches Ok(n) && n@ == id,
                t => r matches Err(x) && x@ == t,
            },
    {
        let t = self.advance();
        match t {
            Token::Identifier(id) => Ok(id),
            other => Err(other),
        }
    }

    fn peek_is_binop(&self) -> (r: bool)
        ensures
            r == binop_token(spec_peek(self.toks(), self.at_pos())),
    {
        let t = self.peek_tok();
        match t {
            Token::Plus | Token::Minus | Token::Asterisk | Token::Slash | Token::EqualEqual | Token::LessThan
            | Token::GreaterThan | Token::GTEqual | Token::LTEqual => true,
            _ => false,
        }
    }

    fn parse_expression(&mut self) -> (r: Result<Expr, ParseStop>)
        requires
            old(self).toks().len() > 0,
        ensures
            final(self).toks() == old(self).toks(),
            stop_outcome_is(r, final(self).at_pos(), spec_expression(old(self).toks(), old(self).at_pos()), |e: Expr| e@),
        decreases old(self).toks().len() - old(self).at_pos(),
    {
        proof { use_type_invariant(&*self); }
        let p0 = self.pos;
        let t = self.advance();
        let ghost tv = t@;
        let left = match t {
            Token::IntLiteral(v) => Expr::IntLiteral(v),
            Token::StringLiteral(s) => Expr::StringLiteral(s),
            Token::Identifier(id) => Expr::Ident(id),
            other => {
                return Err(ParseStop::Error(join2("Unexpected token in expression: ", other.describe().as_str())));
            },
        };
        assert(operand(tv) == Some(left@));
        if self.peek_is_binop() {
            proof { use_type_invariant(&*self); }
            let ot = self.advance();
            let op = match op_string(&ot) {
                Some(op) => op,
                None => {
                    return Err(ParseStop::Abort);
                },
            };
            proof { use_type_invariant(&*self); }
            if self.pos <= p0 {
                return Err(ParseStop::Abort);
            }
            let right = match self.parse_expression() {
                Ok(e) => e,
                Err(m) => {
                    return Err(m);
                },
            };
            let e = Expr::BinaryOp { left: Box::new(left), op, right: Box::new(right) };
            assert(e@ == ExprView::BinaryOp { left: Box::new(left@), op: op@, right: Box::new(right@) });
            Ok(e)
        } else {
            Ok(left)
        }
    }

    fn parse_send(&mut self, high: bool) -> (r: Result<Expr, ParseStop>)
        requires
            old(self).toks().len() > 0,
        ensures
            final(self).toks() == old(self).toks(),
            stop_outcome_is(r, final(self).at_pos(), spec_send(old(self).toks(), old(self).at_pos(), high), |e: Expr| e@),
    {
        let kw = if high { Token::SendHigh } else { Token::Send };
        let word = if high { "send_high" } else { "send" };
        assert(word@ == send_keyword(high));
        match self.consume(kw) {
            Ok(()) => {},
            Err(m) => {
                return Err(m);
            },
        }
        if !self.check(&Token::LParen) {
            let t1 = self.advance();
            let target = match t1 {
                Token::Identifier(id) => id,
                Token::StringLiteral(s) => s,
                other => {
                    return Err(ParseStop::Error(join4("Expected target string or identifier for ", word, ", got ", other.describe().as_str())));
                },
            };
            let t2 = self.advance();
            let message = match t2 {
                Token::Identifier(id) => id,
                Token::StringLiteral(s) => s,
                other => {
                    return Err(ParseStop::Error(join4("Expected message string or identifier for ", word, ", got ", other.describe().as_str())));
                },
            };
            if high {
                return Ok(Expr::SendHigh { target, message });
            } else {
                return Ok(Expr::Send { target, message });
            }
        }
        match self.consume(Token::LParen) {
            Ok(()) => {},
            Err(m) => {
                return Err(m);
            },
        }
        let t1 = self.advance();
        let target = match t1 {
            Token::Identifier(id) => id,
            Token::StringLiteral(s) => s,
            other => {
                return Err(ParseStop::Error(join4("Expected target string or identifier for ", word, ", got ", other.describe().as_str())));
            },
        };
        match self.consume(Token::Comma) {
            Ok(()) => {},
            Err(m) => {
                return Err(m);
            },
        }
        let t2 = self.advance();
        let message = match t2 {
            Token::Identifier(id) => id,
            Token::StringLiteral(s) => s,
            other => {
                return Err(ParseStop::Error(join4("Expected message string or identifier for ", word, ", got ", other.describe().as_str())));
            },
        };
        match self.consume(Token::RParen) {
            Ok(()) => {},
            Err(m) => {
                return Err(m);
            },
        }
        if high {
            Ok(Expr::SendHigh { target, message })
        } else {
            Ok(Expr::Send { target, message })
        }
    }

    fn parse_named(&mut self) -> (r: Result<Expr, ParseStop>)
        requires
            old(self).toks().len() > 0,
        ensures
            final(self).toks() == old(self).toks(),
            stop_outcome_is(r, final(self).at_pos(), spec_named(old(self).toks(), old(self).at_pos()), |e: Expr| e@),
    {
        let id = match self.take_name() {
            Ok(n) => n,
            Err(_) => {
                return Err(ParseStop::Abort);
            },
        };
        if self.check(&Token::Equal) {
            match self.consume(Token::Equal) {
                Ok(()) => {},
                Err(m) => {
                    return Err(m);
                },
            }
            let value = match self.parse_expression() {
                Ok(e) => e,
                Err(m) => {
                    return Err(m);
                },
            };
            let e = Expr::Assignment { target: id, value: Box::new(value) };
            assert(e@ == ExprView::Assignment { target: id@, value: Box::new(value@) });
            Ok(e)
        } else if self.peek_is_binop() {
            let ot = self.advance();
            let op = match op_string(&ot) {
                Some(op) => op,
                None => {
                    return Err(ParseStop::Error(String::from_str("Unsupported op")));
                },
            };
            let right = match self.parse_expression() {
                Ok(e) => e,
                Err(m) => {
                    return Err(m);
                },
            };
            let ghost idv = id@;
            let l = Expr::Ident(id);
            assert(l@ == ExprView::Ident(idv));
            let e = Expr::BinaryOp { left: Box::new(l), op, right: Box::new(right) };
            assert(e@ == ExprView::BinaryOp { left: Box::new(ExprView::Ident(idv)), op: op@, right: Box::new(right@) });
            Ok(e)
        } else {
            Ok(Expr::Ident(id))
        }
    }

    fn parse_statement_or_expr(&mut self) -> (r: Result<Expr, ParseStop>)
        requires
            old(self).toks().len() > 0,
        ensures
            final(self).toks() == old(self).toks(),
            stop_outcome_is(r, final(self).at_pos(), spec_statement(old(self).toks(), old(self).at_pos()), |e: Expr| e@),
        decreases old(self).toks().len() - old(self).at_pos(), 1nat,
    {
        let t = self.peek_tok();
        let p0 = self.pos;
        match t {
            Token::Send => self.parse_send(false),
            Token::SendHigh => self.parse_send(true),
            Token::If => {
                match self.consume(Token::If) {
                    Ok(()) => {},
                    Err(m) => {
                        return Err(m);
                    },
                }
                let condition = match self.parse_expression() {
                    Ok(e) => e,
                    Err(m) => {
                        return Err(m);
                    },
                };
                match self.consume(Token::LBrace) {
                    Ok(()) => {},
                    Err(m) => {
                        return Err(m);
                    },
                }
                if self.pos <= p0 {
                    return Err(ParseStop::Abort);
                }
                let consequence = match self.parse_block(false) {
                    Ok(v) => v,
                    Err(m) => {
                        return Err(m);
                    },
                };
                match self.consume(Token::RBrace) {
                    Ok(()) => {},
                    Err(m) => {
                        return Err(m);
                    },
                }
                Ok(Expr::If { condition: Box::new(condition), consequence })
            },
            Token::Identifier(_) => self.parse_named(),
            _ => self.parse_expression(),
        }
    }

    fn parse_block(&mut self, eof_ends: bool) -> (r: Result<Vec<Expr>, ParseStop>)
        requires
            old(self).toks().len() > 0,
        ensures
            final(self).toks() == old(self).toks(),
            stop_outcome_is(r, final(self).at_pos(), spec_block(old(self).toks(), old(self).at_pos(), Seq::empty(), eof_ends), |v: Vec<Expr>| exprs_view_seq(v@)),
        decreases old(self).toks().len() - old(self).at_pos(), 2nat,
    {
        let ghost ts = self.toks();
        let ghost total = spec_block(ts, self.at_pos(), Seq::empty(), eof_ends);
        let ghost start = self.at_pos();
        let mut out: Vec<Expr> = Vec::new();
        loop
            invariant
                self.toks() == ts,
                ts == old(self).toks(),
                start == old(self).at_pos(),
                start <= self.at_pos(),
                total == spec_block(ts, start, Seq::empty(), eof_ends),
                ts.len() > 0,
                spec_block(ts, self.at_pos(), exprs_view_seq(out@), eof_ends) == total,
            decreases ts.len() - self.at_pos(),
        {
            proof { use_type_invariant(&*self); }
            if self.check(&Token::RBrace) || (eof_ends && self.check(&Token::EOF)) {
                return Ok(out);
            }
            let p0 = self.pos;
            let e = match self.parse_statement_or_expr() {
                Ok(e) => e,
                Err(m) => {
                    return Err(m);
                },
            };
            if self.pos <= p0 {
                return Err(ParseStop::Abort);
            }
            proof {
                lemma_exprs_view_push(out@, e);
                use_type_invariant(&*self);
            }
            out.push(e);
        }
    }
    fn parse_fields(&mut self) -> (r: Result<Vec<StateField>, ParseStop>)
        requires
            old(self).toks().len() > 0,
        ensures
            final(self).toks() == old(self).toks(),
            stop_outcome_is(r, final(self).at_pos(), spec_fields(old(self).toks(), old(self).at_pos(), Seq::empty()), |v: Vec<StateField>| fields_view(v@)),
    {
        let ghost ts = self.toks();
        let ghost total = spec_fields(ts, self.at_pos(), Seq::empty());
        let mut fields: Vec<StateField> = Vec::new();
        assert(fields_view(fields@) =~= Seq::empty());
        loop
            invariant
                self.toks() == ts,
                ts == old(self).toks(),
                total == spec_fields(old(self).toks(), old(self).at_pos(), Seq::empty()),
                spec_fields(ts, self.at_pos(), fields_view(fields@)) == total,
            decreases ts.len() - self.at_pos(),
        {
            proof { use_type_invariant(&*self); }
            if self.check(&Token::RBrace) || self.check(&Token::EOF) {
                return Ok(fields);
            }
            let p0 = self.pos;
            let name = match self.take_name() {
                Ok(n) => n,
                Err(t) => {
                    return Err(ParseStop::Error(join2("Expected state field name, found ", t.describe().as_str())));
                },
            };
            match self.consume(Token::Colon) {
                Ok(()) => {},
                Err(m) => {
                    return Err(m);
                },
            }
            let typ = match self.take_name() {
                Ok(n) => n,
                Err(t) => {
                    return Err(ParseStop::Error(join4("Expected type for field ", name.as_str(), ", found ", t.describe().as_str())));
                },
            };
            if self.pos <= p0 {
                return Err(ParseStop::Abort);
            }
            let ghost before = fields@;
            let f = StateField { name, typ };
            fields.push(f);
            proof {
                assert(fields_view(fields@) =~= fields_view(before).push((f.name@, f.typ@)));
                use_type_invariant(&*self);
            }
        }
    }

    fn parse_state_block(&mut self) -> (r: Result<Vec<StateField>, ParseStop>)
        requires
            old(self).toks().len() > 0,
        ensures
            final(self).toks() == old(self).toks(),
            stop_outcome_is(r, final(self).at_pos(), spec_state_block(old(self).toks(), old(self).at_pos()), |v: Vec<StateField>| fields_view(v@)),
    {
        match self.consume(Token::State) {
            Ok(()) => {},
            Err(m) => {
                return Err(m);
            },
        }
        match self.consume(Token::LBrace) {
            Ok(()) => {},
            Err(m) => {
                return Err(m);
            },
        }
        let fields = match self.parse_fields() {
            Ok(v) => v,
            Err(m) => {
                return Err(m);
            },
        };
        match self.consume(Token::RBrace) {
            Ok(()) => {},
            Err(m) => {
                return Err(m);
            },
        }
        Ok(fields)
    }

    /// Skips a capability declaration.
    fn skip_capability(&mut self) -> (r: Result<(), ParseStop>)
        requires
            old(self).toks().len() > 0,
        ensures
            final(self).toks() == old(self).toks(),
            stop_outcome_is(r, final(self).at_pos(), spec_capability(old(self).toks(), old(self).at_pos()), |u: ()| ()),
    {
        match self.consume(Token::Capability) {
            Ok(()) => {},
            Err(m) => {
                return Err(m);
            },
        }
        match self.consume(Token::LBrace) {
            Ok(()) => {},
            Err(m) => {
                return Err(m);
            },
        }
        let ghost ts = self.toks();
        let ghost total = spec_skip_block(ts, self.at_pos());
        loop
            invariant_except_break
                self.toks() == ts,
                ts.len() > 0,
                spec_skip_block(ts, self.at_pos()) == total,
            ensures
                self.toks() == ts,
                total == Parsed::Done((), self.at_pos()),
            decreases ts.len() - self.at_pos(),
        {
            proof { use_type_invariant(&*self); }
            if self.check(&Token::RBrace) || self.check(&Token::EOF) {
                break;
            }
            let p0 = self.pos;
            self.advance();
            if self.pos <= p0 {
                return Err(ParseStop::Abort);
            }
        }
        self.consume(Token::RBrace)
    }

    fn parse_goal(&mut self) -> (r: Result<GoalDecl, ParseStop>)
        requires
            old(self).toks().len() > 0,
        ensures
            final(self).toks() == old(self).toks(),
            stop_outcome_is(r, final(self).at_pos(), spec_goal(old(self).toks(), old(self).at_pos()), |g: GoalDecl| (g.name@, g.target@)),
    {
        match self.consume(Token::Goal) {
            Ok(()) => {},
            Err(m) => {
                return Err(m);
            },
        }
        let name = match self.take_name() {
            Ok(n) => n,
            Err(t) => {
                return Err(ParseStop::Error(join2("Expected goal name, found ", t.describe().as_str())));
            },
        };
        match self.consume(Token::LBrace) {
            Ok(()) => {},
            Err(m) => {
                return Err(m);
            },
        }
        if self.check(&Token::Target) {
            match self.consume(Token::Target) {
                Ok(()) => {},
                Err(m) => {
                    return Err(m);
                },
            }
        } else {
            let t = self.peek_tok();
            let is_predicate = match &t {
                Token::Identifier(id) => string_is(id, "predicate"),
                _ => false,
            };
            if is_predicate {
                self.advance();
            } else {
                return Err(ParseStop::Error(join2("Expected 'target' or 'predicate' for goal, found ", t.describe().as_str())));
            }
        }
        let target = match self.parse_expression() {
            Ok(e) => e,
            Err(m) => {
                return Err(m);
            },
        };
        if self.check(&Token::Strategy) {
            match self.consume(Token::Strategy) {
                Ok(()) => {},
                Err(m) => {
                    return Err(m);
                },
            }
            match self.consume(Token::LBrace) {
                Ok(()) => {},
                Err(m) => {
                    return Err(m);
                },
            }
            let ghost ts = self.toks();
            let ghost total = spec_skip_block(ts, self.at_pos());
            loop
                invariant_except_break
                    self.toks() == ts,
                        spec_skip_block(ts, self.at_pos()) == total,
                ensures
                    self.toks() == ts,
                    total == Parsed::Done((), self.at_pos()),
                decreases ts.len() - self.at_pos(),
            {
                proof { use_type_invariant(&*self); }
                if self.check(&Token::RBrace) || self.check(&Token::EOF) {
                    break;
                }
                let p0 = self.pos;
                self.advance();
                if self.pos <= p0 {
                    return Err(ParseStop::Abort);
                }
            }
            match self.consume(Token::RBrace) {
                Ok(()) => {},
                Err(m) => {
                    return Err(m);
                },
            }
        }
        match self.consume(Token::RBrace) {
            Ok(()) => {},
            Err(m) => {
                return Err(m);
            },
        }
        Ok(GoalDecl { name, target })
    }

    fn parse_transition(&mut self) -> (r: Result<TransitionDecl, ParseStop>)
        requires
            old(self).toks().len() > 0,
        ensures
            final(self).toks() == old(self).toks(),
            stop_outcome_is(r, final(self).at_pos(), spec_transition(old(self).toks(), old(self).at_pos()), |t: TransitionDecl| (t.name@, exprs_view_seq(t.slice_step@))),
    {
        match self.consume(Token::Transition) {
            Ok(()) => {},
            Err(m) => {
                return Err(m);
            },
        }
        let name = match self.take_name() {
            Ok(n) => n,
            Err(t) => {
                return Err(ParseStop::Error(join2("Expected transition name, found ", t.describe().as_str())));
            },
        };
        match self.consume(Token::LBrace) {
            Ok(()) => {},
            Err(m) => {
                return Err(m);
            },
        }
        if self.check(&Token::Capability) {
            match self.skip_capability() {
                Ok(()) => {},
                Err(m) => {
                    return Err(m);
                },
            }
        }
        if self.check(&Token::Slice) {
            match self.consume(Token::Slice) {
                Ok(()) => {},
                Err(m) => {
                    return Err(m);
                },
            }
        }
        match self.consume(Token::Step) {
            Ok(()) => {},
            Err(m) => {
                return Err(m);
            },
        }
        match self.consume(Token::LBrace) {
            Ok(()) => {},
            Err(m) => {
                return Err(m);
            },
        }
        let slice_step = match self.parse_block(true) {
            Ok(v) => v,
            Err(m) => {
                return Err(m);
            },
        };
        match self.consume(Token::RBrace) {
            Ok(()) => {},
            Err(m) => {
                return Err(m);
            },
        }
        match self.consume(Token::RBrace) {
            Ok(()) => {},
            Err(m) => {
                return Err(m);
            },
        }
        Ok(TransitionDecl { name, slice_step })
    }

    fn parse_domain_body(&mut self, name: &String) -> (r: Result<(Vec<StateField>, Vec<GoalDecl>, Vec<TransitionDecl>), ParseStop>)
        requires
            old(self).toks().len() > 0,
        ensures
            final(self).toks() == old(self).toks(),
            stop_outcome_is(r, final(self).at_pos(), spec_domain_body(old(self).toks(), old(self).at_pos(), empty_domain(name@)),
                |t: (Vec<StateField>, Vec<GoalDecl>, Vec<TransitionDecl>)| members_view(name@, t.0, t.1, t.2)),
    {
        let ghost ts = self.toks();
        let ghost total = spec_domain_body(ts, self.at_pos(), empty_domain(name@));
        let mut state: Vec<StateField> = Vec::new();
        let mut goals: Vec<GoalDecl> = Vec::new();
        let mut transitions: Vec<TransitionDecl> = Vec::new();
        proof {
            assert(fields_view(state@) =~= Seq::empty());
            assert(goals_view(goals@) =~= Seq::empty());
            assert(transitions_view(transitions@) =~= Seq::empty());
            assert(members_view(name@, state, goals, transitions) == empty_domain(name@));
        }
        loop
            invariant
                self.toks() == ts,
                ts == old(self).toks(),
                total == spec_domain_body(old(self).toks(), old(self).at_pos(), empty_domain(name@)),
                spec_domain_body(ts, self.at_pos(), members_view(name@, state, goals, transitions)) == total,
            decreases ts.len() - self.at_pos(),
        {
            proof { use_type_invariant(&*self); }
            if self.check(&Token::RBrace) || self.check(&Token::EOF) {
                return Ok((state, goals, transitions));
            }
            let p0 = self.pos;
            if self.check(&Token::State) {
                let fs = match self.parse_state_block() {
                    Ok(v) => v,
                    Err(m) => {
                        return Err(m);
                    },
                };
                if self.pos <= p0 {
                    return Err(ParseStop::Abort);
                }
                state = fs;
            } else if self.check(&Token::Goal) {
                let g = match self.parse_goal() {
                    Ok(g) => g,
                    Err(m) => {
                        return Err(m);
                    },
                };
                if self.pos <= p0 {
                    return Err(ParseStop::Abort);
                }
                let ghost before = goals@;
                goals.push(g);
                assert(goals_view(goals@) =~= goals_view(before).push((g.name@, g.target@)));
            } else if self.check(&Token::Capability) {
                match self.skip_capability() {
                    Ok(()) => {},
                    Err(m) => {
                        return Err(m);
                    },
                }
                if self.pos <= p0 {
                    return Err(ParseStop::Abort);
                }
            } else if self.check(&Token::Transition) {
                let t = match self.parse_transition() {
                    Ok(t) => t,
                    Err(m) => {
                        return Err(m);
                    },
                };
                if self.pos <= p0 {
                    return Err(ParseStop::Abort);
                }
                let ghost before = transitions@;
                transitions.push(t);
                assert(transitions_view(transitions@) =~= transitions_view(before).push((t.name@, exprs_view_seq(t.slice_step@))));
            } else {
                let found = self.peek_tok();
                return Err(ParseStop::Error(join2("Unexpected token in domain body: ", found.describe().as_str())));
            }
            proof { use_type_invariant(&*self); }
        }
    }

    fn parse_domain(&mut self) -> (r: Result<DomainDecl, ParseStop>)
        requires
            old(self).toks().len() > 0,
        ensures
            final(self).toks() == old(self).toks(),
            stop_outcome_is(r, final(self).at_pos(), spec_domain(old(self).toks(), old(self).at_pos()), |d: DomainDecl| d@),
    {
        match self.consume(Token::Domain) {
            Ok(()) => {},
            Err(m) => {
                return Err(m);
            },
        }
        let name = match self.take_name() {
            Ok(n) => n,
            Err(t) => {
                return Err(ParseStop::Error(join2("Expected identifier after 'domain', found ", t.describe().as_str())));
            },
        };
        match self.consume(Token::LBrace) {
            Ok(()) => {},
            Err(m) => {
                return Err(m);
            },
        }
        let (state, goals, transitions) = match self.parse_domain_body(&name) {
            Ok(t) => t,
            Err(m) => {
                return Err(m);
            },
        };
        match self.consume(Token::RBrace) {
            Ok(()) => {},
            Err(m) => {
                return Err(m);
            },
        }
        Ok(DomainDecl { name, state, goals, transitions })
    }

    fn parse_start(&mut self) -> (r: Result<StartDomain, ParseStop>)
        requires
            old(self).toks().len() > 0,
        ensures
            final(self).toks() == old(self).toks(),
            stop_outcome_is(r, final(self).at_pos(), spec_start(old(self).toks(), old(self).at_pos()), |t: StartDomain| (t.name@, exprs_view_seq(t.init_state@))),
    {
        match self.consume(Token::Start) {
            Ok(()) => {},
            Err(m) => {
                return Err(m);
            },
        }
        match self.consume(Token::Domain) {
            Ok(()) => {},
            Err(m) => {
                return Err(m);
            },
        }
        let name = match self.take_name() {
            Ok(n) => n,
            Err(_) => {
                return Err(ParseStop::Error(String::from_str("Expected domain name")));
            },
        };
        match self.consume(Token::LBrace) {
            Ok(()) => {},
            Err(m) => {
                return Err(m);
            },
        }
        let init_state = match self.parse_block(false) {
            Ok(v) => v,
            Err(m) => {
                return Err(m);
            },
        };
        match self.consume(Token::RBrace) {
            Ok(()) => {},
            Err(m) => {
                return Err(m);
            },
        }
        Ok(StartDomain { name, init_state })
    }

    fn parse_starts(&mut self) -> (r: Result<Vec<StartDomain>, ParseStop>)
        requires
            old(self).toks().len() > 0,
        ensures
            final(self).toks() == old(self).toks(),
            stop_outcome_is(r, final(self).at_pos(), spec_starts(old(self).toks(), old(self).at_pos(), Seq::empty()), |v: Vec<StartDomain>| starts_view(v@)),
    {
        let ghost ts = self.toks();
        let ghost total = spec_starts(ts, self.at_pos(), Seq::empty());
        let mut start_domains: Vec<StartDomain> = Vec::new();
        assert(starts_view(start_domains@) =~= Seq::empty());
        loop
            invariant
                self.toks() == ts,
                ts == old(self).toks(),
                total == spec_starts(old(self).toks(), old(self).at_pos(), Seq::empty()),
                spec_starts(ts, self.at_pos(), starts_view(start_domains@)) == total,
            decreases ts.len() - self.at_pos(),
        {
            proof { use_type_invariant(&*self); }
            if !self.check(&Token::Start) {
                return Ok(start_domains);
            }
            let p0 = self.pos;
            let b = match self.parse_start() {
                Ok(b) => b,
                Err(m) => {
                    return Err(m);
                },
            };
            if self.pos <= p0 {
                return Err(ParseStop::Abort);
            }
            let ghost before = start_domains@;
            start_domains.push(b);
            proof {
                assert(starts_view(start_domains@) =~= starts_view(before).push((b.name@, exprs_view_seq(b.init_state@))));
                use_type_invariant(&*self);
            }
        }
    }

    fn parse_system(&mut self) -> (r: Result<SystemDecl, ParseStop>)
        requires
            old(self).toks().len() > 0,
        ensures
            final(self).toks() == old(self).toks(),
            stop_outcome_is(r, final(self).at_pos(), spec_system(old(self).toks(), old(self).at_pos()), |d: SystemDecl| d@),
    {
        match self.consume(Token::System) {
            Ok(()) => {},
            Err(m) => {
                return Err(m);
            },
        }
        let name = match self.take_name() {
            Ok(n) => n,
            Err(_) => {
                return Err(ParseStop::Error(String::from_str("Expected system name")));
            },
        };
        match self.consume(Token::LBrace) {
            Ok(()) => {},
            Err(m) => {
                return Err(m);
            },
        }
        let start_domains = match self.parse_starts() {
            Ok(v) => v,
            Err(m) => {
                return Err(m);
            },
        };
        match self.consume(Token::RBrace) {
            Ok(()) => {},
            Err(m) => {
                return Err(m);
            },
        }
        Ok(SystemDecl { name, start_domains })
    }

    /// The declarations from the current position to the end of file, as
    /// `spec_program` describes.
    fn parse_program(&mut self) -> (r: Result<Ast, ParseStop>)
        ensures
            final(self).toks() == old(self).toks(),
            stop_outcome_is(r, final(self).at_pos(), spec_program(old(self).toks(), old(self).at_pos(), Seq::empty()), |a: Ast| a@),
    {
        let ghost ts = self.toks();
        let ghost total = spec_program(ts, self.at_pos(), Seq::empty());
        let mut statements: Vec<Statement> = Vec::new();
        proof {
            assert(statements_view(statements@) =~= Seq::empty());
        }
        loop
            invariant_except_break
                self.toks() == ts,
                ts == old(self).toks(),
                total == spec_program(old(self).toks(), old(self).at_pos(), Seq::empty()),
                spec_program(ts, self.at_pos(), statements_view(statements@)) == total,
            ensures
                self.toks() == ts,
                ts == old(self).toks(),
                total == spec_program(old(self).toks(), old(self).at_pos(), Seq::empty()),
                total == Parsed::Done(statements_view(statements@), self.at_pos()),
            decreases ts.len() - self.at_pos(),
        {
            proof { use_type_invariant(&*self); }
            if self.check(&Token::EOF) {
                break;
            }
            let p0 = self.pos;
            let ghost before = statements@;
            if self.check(&Token::Domain) {
                let d = match self.parse_domain() {
                    Ok(d) => d,
                    Err(m) => {
                        return Err(m);
                    },
                };
                if self.pos <= p0 {
                    return Err(ParseStop::Abort);
                }
                let st = Statement::DomainDecl(d);
                statements.push(st);
                assert(statements_view(statements@) =~= statements_view(before).push(st@));
            } else if self.check(&Token::System) {
                let d = match self.parse_system() {
                    Ok(d) => d,
                    Err(m) => {
                        return Err(m);
                    },
                };
                if self.pos <= p0 {
                    return Err(ParseStop::Abort);
                }
                let st = Statement::SystemDecl(d);
                statements.push(st);
                assert(statements_view(statements@) =~= statements_view(before).push(st@));
            } else {
                let found = self.peek_tok();
                return Err(ParseStop::Error(join2("Unexpected token at top level: ", found.describe().as_str())));
            }
            proof { use_type_invariant(&*self); }
        }
        Ok(Ast { statements })
    }

    /// Parses declarations from the current position to the end of file,
    /// as `spec_program` describes. Inputs on which the parser would panic
    /// or loop forever are excluded.
    pub fn parse(&mut self) -> (r: Result<Ast, String>)
        requires
            spec_program(old(self).toks(), old(self).at_pos(), Seq::empty()).defined(),
        ensures
            final(self).toks() == old(self).toks(),
            outcome_is(r, final(self).at_pos(), spec_program(old(self).toks(), old(self).at_pos(), Seq::empty()), |a: Ast| a@),
    {
        match self.parse_program() {
            Ok(a) => Ok(a),
            Err(ParseStop::Error(e)) => Err(e),
            Err(ParseStop::Abort) => {
                assert(false);
                Err(String::new())
            },
        }
    }

    /// `parse` for any tokens: `None` where the parser would panic or loop
    /// forever.
    pub fn try_parse(&mut self) -> (r: Option<Result<Ast, String>>)
        ensures
            final(self).toks() == old(self).toks(),
            r is None <==> !spec_program(old(self).toks(), old(self).at_pos(), Seq::empty()).defined(),
            r matches Some(x) ==> outcome_is(x, final(self).at_pos(), spec_program(old(self).toks(), old(self).at_pos(), Seq::empty()), |a: Ast| a@),
    {
        match self.parse_program() {
            Ok(a) => Some(Ok(a)),
            Err(ParseStop::Error(e)) => Some(Err(e)),
            Err(ParseStop::Abort) => None,
        }
    }
}

/// Parses a whole token sequence, as `spec_parse` describes.
pub fn parse(input: Vec<Token>) -> (r: Result<Ast, String>)
    requires
        spec_parse(tokens_view(input@)).defined(),
    ensures
        match spec_parse(tokens_view(input@)) {
            Parsed::Done(v, _) => r matches Ok(a) && a@ == v,
            Parsed::Fail(m, _) => r matches Err(e) && e@ == m,
            _ => false,
        },
{
    let mut parser = Parser::new(input);
    parser.parse()
}

/// The operator text of a supported binary operator token.
fn op_string(t: &Token) -> (r: Option<String>)
    ensures
        match op_text(t@) {
            Some(s) => r matches Some(x) && x@ == s,
            None => r is None,
        },
{
    match t {
        Token::Plus => Some(String::from_str("+")),
        Token::Minus => Some(String::from_str("-")),
        Token::EqualEqual => Some(String::from_str("==")),
        Token::LessThan => Some(String::from_str("<")),
        Token::GreaterThan => Some(String::from_str(">")),
        Token::GTEqual => Some(String::from_str(">=")),
        Token::LTEqual => Some(String::from_str("<=")),
        _ => None,
    }
}

/// The operator of a parsed binary expression is how its token is
/// written: whenever a token gives an operator, the token is an operator
/// symbol and the operator text is its spelling; so different tokens give
/// different operators, and `-` gives `-`.
pub proof fn lemma_operator_text_is_spelling(t: TokenView)
    ensures
        op_text(t) matches Some(o) ==> (t matches TokenView::Plain(k) && symbol_spelling(k) == Some(o)),
        t matches TokenView::Plain(k) ==> (op_text(t) is Some ==> op_text(t) == symbol_spelling(k)),
{
    reveal_strlit("+");
    reveal_strlit("-");
    reveal_strlit("==");
    reveal_strlit("<");
    reveal_strlit(">");
    reveal_strlit(">=");
    reveal_strlit("<=");
    assert("+"@ =~= seq!['+']);
    assert("-"@ =~= seq!['-']);
    assert("=="@ =~= seq!['=', '=']);
    assert("<"@ =~= seq!['<']);
    assert(">"@ =~= seq!['>']);
    assert(">="@ =~= seq!['>', '=']);
    assert("<="@ =~= seq!['<', '=']);
}

} // verus!
