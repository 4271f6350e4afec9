//! The Ved lexer: turns source text into tokens.

use vstd::prelude::*;
use crate::text::{
    ascii_digit, digit_char, nat_digits, char_is_alphabetic, char_is_alphanumeric, char_is_whitespace, i64_text, int_text,
    join3, push_char, str_chars, string_is, string_of_chars, unicode_alphabetic, unicode_numeric,
    unicode_whitespace,
};

verus! {

#[derive(Debug, Clone)]
pub enum Token {
    // System structure keywords
    System,
    Module,
    Domain,
    State,
    Transition,
    Goal,
    Reconcile,
    Migration,
    // Execution and scheduling
    Start,
    Step,
    Slice,
    Emit,
    Send,
    SendHigh,
    On,
    When,
    Target,
    Strategy,
    Priority,
    // Scope and authority
    Scope,
    Elevate,
    Capability,
    // Visibility and composition
    Public,
    Private,
    Import,
    // Control flow
    If,
    Else,
    Let,
    // Symbols and operators
    LBrace,
    RBrace,
    LParen,
    RParen,
    Colon,
    Equal,
    EqualEqual,
    NotEqual,
    LessThan,
    GreaterThan,
    LTEqual,
    GTEqual,
    Arrow,
    Plus,
    Minus,
    Asterisk,
    Slash,
    Modulo,
    Dot,
    Comma,
    // Literals and identifiers
    Identifier(String),
    IntLiteral(i64),
    StringLiteral(String),
    EOF,
    Unknown(char),
}

/// A token with the text of identifiers and string literals taken as
/// character sequences; every other token stands for itself.
pub enum TokenView {
    Plain(Token),
    Ident(Seq<char>),
    Str(Seq<char>),
}

impl View for Token {
    type V = TokenView;

    open spec fn view(&self) -> TokenView {
        match self {
            Token::Identifier(s) => TokenView::Ident(s@),
            Token::StringLiteral(s) => TokenView::Str(s@),
            _ => TokenView::Plain(*self),
        }
    }
}

/// The views of a sequence of tokens.
pub open spec fn tokens_view(s: Seq<Token>) -> Seq<TokenView> {
    s.map_values(|t: Token| t@)
}

/// How a token is shown in messages.
pub open spec fn token_text(t: TokenView) -> Seq<char> {
    match t {
        TokenView::Ident(s) => "identifier '"@ + s + "'"@,
        TokenView::Str(s) => "string \""@ + s + "\""@,
        TokenView::Plain(tok) => plain_token_text(tok),
    }
}

pub open spec fn plain_token_text(tok: Token) -> Seq<char> {
    match tok {
        Token::System => "'system'"@,
        Token::Module => "'module'"@,
        Token::Domain => "'domain'"@,
        Token::State => "'state'"@,
        Token::Transition => "'transition'"@,
        Token::Goal => "'goal'"@,
        Token::Reconcile => "'reconcile'"@,
        Token::Migration => "'migration'"@,
        Token::Start => "'start'"@,
        Token::Step => "'step'"@,
        Token::Slice => "'slice'"@,
        Token::Emit => "'emit'"@,
        Token::Send => "'send'"@,
        Token::SendHigh => "'send_high'"@,
        Token::On => "'on'"@,
        Token::When => "'when'"@,
        Token::Target => "'target'"@,
        Token::Strategy => "'strategy'"@,
        Token::Priority => "'priority'"@,
        Token::Scope => "'scope'"@,
        Token::Elevate => "'elevate'"@,
        Token::Capability => "'capability'"@,
        Token::Public => "'public'"@,
        Token::Private => "'private'"@,
        Token::Import => "'import'"@,
        Token::If => "'if'"@,
        Token::Else => "'else'"@,
        Token::Let => "'let'"@,
        Token::LBrace => "'{'"@,
        Token::RBrace => "'}'"@,
        Token::LParen => "'('"@,
        Token::RParen => "')'"@,
        Token::Colon => "':'"@,
        Token::Equal => "'='"@,
        Token::EqualEqual => "'=='"@,
        Token::NotEqual => "'!='"@,
        Token::LessThan => "'<'"@,
        Token::GreaterThan => "'>'"@,
        Token::LTEqual => "'<='"@,
        Token::GTEqual => "'>='"@,
        Token::Arrow => "'->'"@,
        Token::Plus => "'+'"@,
        Token::Minus => "'-'"@,
        Token::Asterisk => "'*'"@,
        Token::Slash => "'/'"@,
        Token::Modulo => "'%'"@,
        Token::Dot => "'.'"@,
        Token::Comma => "','"@,
        Token::Identifier(s) => "identifier '"@ + s@ + "'"@,
        Token::IntLiteral(n) => "integer "@ + int_text(n as int),
        Token::StringLiteral(s) => "string \""@ + s@ + "\""@,
        Token::EOF => "end of file"@,
        Token::Unknown(c) => "unknown character '"@ + seq![c] + "'"@,
    }
}

impl Token {
    /// The text by which messages show the token.
    pub fn describe(&self) -> (s: String)
        ensures
            s@ == token_text(self@),
    {
        match self {
            Token::System => String::from_str("'system'"),
            Token::Module => String::from_str("'module'"),
            Token::Domain => String::from_str("'domain'"),
            Token::State => String::from_str("'state'"),
            Token::Transition => String::from_str("'transition'"),
            Token::Goal => String::from_str("'goal'"),
            Token::Reconcile => String::from_str("'reconcile'"),
            Token::Migration => String::from_str("'migration'"),
            Token::Start => String::from_str("'start'"),
            Token::Step => String::from_str("'step'"),
            Token::Slice => String::from_str("'slice'"),
            Token::Emit => String::from_str("'emit'"),
            Token::Send => String::from_str("'send'"),
            Token::SendHigh => String::from_str("'send_high'"),
            Token::On => String::from_str("'on'"),
            Token::When => String::from_str("'when'"),
            Token::Target => String::from_str("'target'"),
            Token::Strategy => String::from_str("'strategy'"),
            Token::Priority => String::from_str("'priority'"),
            Token::Scope => String::from_str("'scope'"),
            Token::Elevate => String::from_str("'elevate'"),
            Token::Capability => String::from_str("'capability'"),
            Token::Public => String::from_str("'public'"),
            Token::Private => String::from_str("'private'"),
            Token::Import => String::from_str("'import'"),
            Token::If => String::from_str("'if'"),
            Token::Else => String::from_str("'else'"),
            Token::Let => String::from_str("'let'"),
            Token::LBrace => String::from_str("'{'"),
            Token::RBrace => String::from_str("'}'"),
            Token::LParen => String::from_str("'('"),
            Token::RParen => String::from_str("')'"),
            Token::Colon => String::from_str("':'"),
            Token::Equal => String::from_str("'='"),
            Token::EqualEqual => String::from_str("'=='"),
            Token::NotEqual => String::from_str("'!='"),
            Token::LessThan => String::from_str("'<'"),
            Token::GreaterThan => String::from_str("'>'"),
            Token::LTEqual => String::from_str("'<='"),
            Token::GTEqual => String::from_str("'>='"),
            Token::Arrow => String::from_str("'->'"),
            Token::Plus => String::from_str("'+'"),
            Token::Minus => String::from_str("'-'"),
            Token::Asterisk => String::from_str("'*'"),
            Token::Slash => String::from_str("'/'"),
            Token::Modulo => String::from_str("'%'"),
            Token::Dot => String::from_str("'.'"),
            Token::Comma => String::from_str("','"),
            Token::Identifier(s) => join3("identifier '", s.as_str(), "'"),
            Token::IntLiteral(n) => {
                let mut s = String::from_str("integer ");
                let d = i64_text(*n);
                s.append(d.as_str());
                s
            },
            Token::StringLiteral(s) => join3("string \"", s.as_str(), "\""),
            Token::EOF => String::from_str("end of file"),
            Token::Unknown(c) => {
                let mut s = String::from_str("unknown character '");
                push_char(&mut s, *c);
                s.append("'");
                s
            },
        }
    }

    /// A copy of the token.
    pub fn duplicate(&self) -> (t: Token)
        ensures
            t@ == self@,
    {
        match self {
            Token::Identifier(s) => Token::Identifier(s.clone()),
            Token::StringLiteral(s) => Token::StringLiteral(s.clone()),
            Token::System => Token::System,
            Token::Module => Token::Module,
            Token::Domain => Token::Domain,
            Token::State => Token::State,
            Token::Transition => Token::Transition,
            Token::Goal => Token::Goal,
            Token::Reconcile => Token::Reconcile,
            Token::Migration => Token::Migration,
            Token::Start => Token::Start,
            Token::Step => Token::Step,
            Token::Slice => Token::Slice,
            Token::Emit => Token::Emit,
            Token::Send => Token::Send,
            Token::SendHigh => Token::SendHigh,
            Token::On => Token::On,
            Token::When => Token::When,
            Token::Target => Token::Target,
            Token::Strategy => Token::Strategy,
            Token::Priority => Token::Priority,
            Token::Scope => Token::Scope,
            Token::Elevate => Token::Elevate,
            Token::Capability => Token::Capability,
            Token::Public => Token::Public,
            Token::Private => Token::Private,
            Token::Import => Token::Import,
            Token::If => Token::If,
            Token::Else => Token::Else,
            Token::Let => Token::Let,
            Token::LBrace => Token::LBrace,
            Token::RBrace => Token::RBrace,
            Token::LParen => Token::LParen,
            Token::RParen => Token::RParen,
            Token::Colon => Token::Colon,
            Token::Equal => Token::Equal,
            Token::EqualEqual => Token::EqualEqual,
            Token::NotEqual => Token::NotEqual,
            Token::LessThan => Token::LessThan,
            Token::GreaterThan => Token::GreaterThan,
            Token::LTEqual => Token::LTEqual,
            Token::GTEqual => Token::GTEqual,
            Token::Arrow => Token::Arrow,
            Token::Plus => Token::Plus,
            Token::Minus => Token::Minus,
            Token::Asterisk => Token::Asterisk,
            Token::Slash => Token::Slash,
            Token::Modulo => Token::Modulo,
            Token::Dot => Token::Dot,
            Token::Comma => Token::Comma,
            Token::IntLiteral(n) => Token::IntLiteral(*n),
            Token::EOF => Token::EOF,
            Token::Unknown(c) => Token::Unknown(*c),
        }
    }
}


impl PartialEq for Token {
    fn eq(&self, other: &Token) -> (r: bool) {
        match (self, other) {
            (Token::System, Token::System) => true,
            (Token::Module, Token::Module) => true,
            (Token::Domain, Token::Domain) => true,
            (Token::State, Token::State) => true,
            (Token::Transition, Token::Transition) => true,
            (Token::Goal, Token::Goal) => true,
            (Token::Reconcile, Token::Reconcile) => true,
            (Token::Migration, Token::Migration) => true,
            (Token::Start, Token::Start) => true,
            (Token::Step, Token::Step) => true,
            (Token::Slice, Token::Slice) => true,
            (Token::Emit, Token::Emit) => true,
            (Token::Send, Token::Send) => true,
            (Token::SendHigh, Token::SendHigh) => true,
            (Token::On, Token::On) => true,
            (Token::When, Token::When) => true,
            (Token::Target, Token::Target) => true,
            (Token::Strategy, Token::Strategy) => true,
            (Token::Priority, Token::Priority) => true,
            (Token::Scope, Token::Scope) => true,
            (Token::Elevate, Token::Elevate) => true,
            (Token::Capability, Token::Capability) => true,
            (Token::Public, Token::Public) => true,
            (Token::Private, Token::Private) => true,
            (Token::Import, Token::Import) => true,
            (Token::If, Token::If) => true,
            (Token::Else, Token::Else) => true,
            (Token::Let, Token::Let) => true,
            (Token::LBrace, Token::LBrace) => true,
            (Token::RBrace, Token::RBrace) => true,
            (Token::LParen, Token::LParen) => true,
            (Token::RParen, Token::RParen) => true,
            (Token::Colon, Token::Colon) => true,
            (Token::Equal, Token::Equal) => true,
            (Token::EqualEqual, Token::EqualEqual) => true,
            (Token::NotEqual, Token::NotEqual) => true,
            (Token::LessThan, Token::LessThan) => true,
            (Token::GreaterThan, Token::GreaterThan) => true,
            (Token::LTEqual, Token::LTEqual) => true,
            (Token::GTEqual, Token::GTEqual) => true,
            (Token::Arrow, Token::Arrow) => true,
            (Token::Plus, Token::Plus) => true,
            (Token::Minus, Token::Minus) => true,
            (Token::Asterisk, Token::Asterisk) => true,
            (Token::Slash, Token::Slash) => true,
            (Token::Modulo, Token::Modulo) => true,
            (Token::Dot, Token::Dot) => true,
            (Token::Comma, Token::Comma) => true,
            (Token::EOF, Token::EOF) => true,
            (Token::Identifier(a), Token::Identifier(b)) => *a == *b,
            (Token::StringLiteral(a), Token::StringLiteral(b)) => *a == *b,
            (Token::IntLiteral(a), Token::IntLiteral(b)) => *a == *b,
            (Token::Unknown(a), Token::Unknown(b)) => *a == *b,
            _ => false,
        }
    }
}

impl vstd::std_specs::cmp::PartialEqSpecImpl for Token {
    open spec fn obeys_eq_spec() -> bool {
        true
    }

    open spec fn eq_spec(&self, other: &Token) -> bool {
        self@ == other@
    }
}

/// The keyword spelled `text`, if it is one.
pub open spec fn keyword(text: Seq<char>) -> Option<Token> {
    if text == "system"@ { Some(Token::System) }
    else if text == "module"@ { Some(Token::Module) }
    else if text == "domain"@ { Some(Token::Domain) }
    else if text == "state"@ { Some(Token::State) }
    else if text == "transition"@ { Some(Token::Transition) }
    else if text == "goal"@ { Some(Token::Goal) }
    else if text == "reconcile"@ { Some(Token::Reconcile) }
    else if text == "migration"@ { Some(Token::Migration) }
    else if text == "start"@ { Some(Token::Start) }
    else if text == "step"@ { Some(Token::Step) }
    else if text == "slice"@ { Some(Token::Slice) }
    else if text == "emit"@ { Some(Token::Emit) }
    else if text == "send"@ { Some(Token::Send) }
    else if text == "send_high"@ { Some(Token::SendHigh) }
    else if text == "on"@ { Some(Token::On) }
    else if text == "when"@ { Some(Token::When) }
    else if text == "target"@ { Some(Token::Target) }
    else if text == "strategy"@ { Some(Token::Strategy) }
    else if text == "priority"@ { Some(Token::Priority) }
    else if text == "scope"@ { Some(Token::Scope) }
    else if text == "elevate"@ { Some(Token::Elevate) }
    else if text == "capability"@ { Some(Token::Capability) }
    else if text == "public"@ { Some(Token::Public) }
    else if text == "private"@ { Some(Token::Private) }
    else if text == "import"@ { Some(Token::Import) }
    else if text == "if"@ { Some(Token::If) }
    else if text == "else"@ { Some(Token::Else) }
    else if text == "let"@ { Some(Token::Let) }
    else { None }
}

/// The token for an identifier-like word.
pub open spec fn word_token(text: Seq<char>) -> TokenView {
    match keyword(text) {
        Some(k) => TokenView::Plain(k),
        None => TokenView::Ident(text),
    }
}

/// An ASCII letter.
pub open spec fn ascii_letter(c: char) -> bool {
    ('a' <= c && c <= 'z') || ('A' <= c && c <= 'Z')
}

/// An ASCII character.
pub open spec fn ascii(c: char) -> bool {
    (c as u32) < 128
}

/// Characters that may start an identifier: letters and `_` (among ASCII
/// characters, only the letters are alphabetic).
pub open spec fn ident_start(c: char) -> bool {
    if ascii(c) { ascii_letter(c) || c == '_' } else { unicode_alphabetic(c) }
}

/// Characters that may continue an identifier: letters, digits and `_`
/// (among ASCII characters, only the letters and digits are alphanumeric).
pub open spec fn ident_char(c: char) -> bool {
    if ascii(c) { ascii_letter(c) || ascii_digit(c) || c == '_' } else { unicode_alphabetic(c) || unicode_numeric(c) }
}

/// Whether `c` may start an identifier; ASCII characters are told apart
/// before `char::is_alphabetic` is asked.
fn starts_identifier(c: char) -> (r: bool)
    ensures
        r == ident_start(c),
{
    if (c as u32) < 128 {
        ('a' <= c && c <= 'z') || ('A' <= c && c <= 'Z') || c == '_'
    } else {
        char_is_alphabetic(c)
    }
}

/// Whether `c` may continue an identifier; ASCII characters are told apart
/// before `char::is_alphanumeric` is asked.
fn continues_identifier(c: char) -> (r: bool)
    ensures
        r == ident_char(c),
{
    if (c as u32) < 128 {
        ('a' <= c && c <= 'z') || ('A' <= c && c <= 'Z') || ('0' <= c && c <= '9') || c == '_'
    } else {
        char_is_alphanumeric(c)
    }
}

/// The first position at or after `p` that is not whitespace.
pub open spec fn skip_ws(s: Seq<char>, p: int) -> int
    decreases s.len() - p,
{
    if 0 <= p < s.len() && unicode_whitespace(s[p]) { skip_ws(s, p + 1) } else { p }
}

/// The end of the run of identifier characters starting at `p`.
pub open spec fn ident_end(s: Seq<char>, p: int) -> int
    decreases s.len() - p,
{
    if 0 <= p < s.len() && ident_char(s[p]) { ident_end(s, p + 1) } else { p }
}

/// The end of the run of ASCII digits starting at `p`.
pub open spec fn digits_end(s: Seq<char>, p: int) -> int
    decreases s.len() - p,
{
    if 0 <= p < s.len() && ascii_digit(s[p]) { digits_end(s, p + 1) } else { p }
}

/// The position of the first `"` at or after `p`, or the end of the text.
pub open spec fn quote_end(s: Seq<char>, p: int) -> int
    decreases s.len() - p,
{
    if 0 <= p < s.len() && s[p] != '"' { quote_end(s, p + 1) } else { p }
}

/// The value of a string of ASCII digits.
pub open spec fn digits_value(t: Seq<char>) -> nat
    decreases t.len(),
{
    if t.len() == 0 {
        0
    } else {
        digits_value(t.drop_last()) * 10 + ((t.last() as nat) - 48) as nat
    }
}

/// An integer literal: its value, or 0 when it does not fit in an `i64`.
pub open spec fn literal_value(t: Seq<char>) -> i64 {
    if digits_value(t) <= i64::MAX { digits_value(t) as i64 } else { 0 }
}

/// A one-character symbol, or a two-character one whose second character
/// is `second`.
pub open spec fn maybe_pair(s: Seq<char>, q: int, second: char, pair: Token, single: Token) -> (TokenView, int) {
    if q + 1 < s.len() && s[q + 1] == second {
        (TokenView::Plain(pair), q + 2)
    } else {
        (TokenView::Plain(single), q + 1)
    }
}

/// The next token of `s` from position `p`, and the position after it.
pub open spec fn lex_next(s: Seq<char>, p: int) -> (TokenView, int) {
    let q = skip_ws(s, p);
    if q >= s.len() {
        (TokenView::Plain(Token::EOF), q)
    } else {
        let c = s[q];
        if ident_start(c) {
            let e = ident_end(s, q);
            (word_token(s.subrange(q, e)), e)
        } else if ascii_digit(c) {
            let e = digits_end(s, q);
            (TokenView::Plain(Token::IntLiteral(literal_value(s.subrange(q, e)))), e)
        } else if c == '{' {
            (TokenView::Plain(Token::LBrace), q + 1)
        } else if c == '}' {
            (TokenView::Plain(Token::RBrace), q + 1)
        } else if c == '(' {
            (TokenView::Plain(Token::LParen), q + 1)
        } else if c == ')' {
            (TokenView::Plain(Token::RParen), q + 1)
        } else if c == ':' {
            (TokenView::Plain(Token::Colon), q + 1)
        } else if c == '.' {
            (TokenView::Plain(Token::Dot), q + 1)
        } else if c == ',' {
            (TokenView::Plain(Token::Comma), q + 1)
        } else if c == '+' {
            (TokenView::Plain(Token::Plus), q + 1)
        } else if c == '-' {
            maybe_pair(s, q, '>', Token::Arrow, Token::Minus)
        } else if c == '*' {
            (TokenView::Plain(Token::Asterisk), q + 1)
        } else if c == '/' {
            (TokenView::Plain(Token::Slash), q + 1)
        } else if c == '%' {
            (TokenView::Plain(Token::Modulo), q + 1)
        } else if c == '=' {
            maybe_pair(s, q, '=', Token::EqualEqual, Token::Equal)
        } else if c == '!' {
            maybe_pair(s, q, '=', Token::NotEqual, Token::Unknown('!'))
        } else if c == '<' {
            maybe_pair(s, q, '=', Token::LTEqual, Token::LessThan)
        } else if c == '>' {
            maybe_pair(s, q, '=', Token::GTEqual, Token::GreaterThan)
        } else if c == '"' {
            let e = quote_end(s, q + 1);
            (TokenView::Str(s.subrange(q + 1, e)), if e < s.len() { e + 1 } else { e })
        } else {
            (TokenView::Plain(Token::Unknown(c)), q + 1)
        }
    }
}

/// All tokens of `s` from position `p`, ending with the end-of-file token.
pub open spec fn lex_from(s: Seq<char>, p: int) -> Seq<TokenView>
    decreases s.len() - p,
{
    let (t, q) = lex_next(s, p);
    if t == TokenView::Plain(Token::EOF) || q <= p || p < 0 || q > s.len() {
        seq![t]
    } else {
        seq![t].add(lex_from(s, q))
    }
}

/// The tokens of a whole source text.
pub open spec fn lex_all(s: Seq<char>) -> Seq<TokenView> {
    lex_from(s, 0)
}

proof fn lemma_skip_ws(s: Seq<char>, p: int)
    requires
        0 <= p <= s.len(),
    ensures
        p <= skip_ws(s, p) <= s.len(),
        skip_ws(s, p) < s.len() ==> !unicode_whitespace(s[skip_ws(s, p)]),
    decreases s.len() - p,
{
    if p < s.len() && unicode_whitespace(s[p]) {
        lemma_skip_ws(s, p + 1);
    }
}

proof fn lemma_ident_end(s: Seq<char>, p: int)
    requires
        0 <= p <= s.len(),
    ensures
        p <= ident_end(s, p) <= s.len(),
    decreases s.len() - p,
{
    if p < s.len() && ident_char(s[p]) {
        lemma_ident_end(s, p + 1);
    }
}

proof fn lemma_digits_end(s: Seq<char>, p: int)
    requires
        0 <= p <= s.len(),
    ensures
        p <= digits_end(s, p) <= s.len(),
        forall|i: int| p <= i < digits_end(s, p) ==> ascii_digit(#[trigger] s[i]),
    decreases s.len() - p,
{
    if p < s.len() && ascii_digit(s[p]) {
        lemma_digits_end(s, p + 1);
    }
}

proof fn lemma_quote_end(s: Seq<char>, p: int)
    requires
        0 <= p <= s.len(),
    ensures
        p <= quote_end(s, p) <= s.len(),
        quote_end(s, p) < s.len() ==> s[quote_end(s, p)] == '"',
    decreases s.len() - p,
{
    if p < s.len() && s[p] != '"' {
        lemma_quote_end(s, p + 1);
    }
}

/// Each token but the last moves forward and stays within the text.
pub proof fn lemma_lex_next_progress(s: Seq<char>, p: int)
    requires
        0 <= p <= s.len(),
    ensures
        p <= lex_next(s, p).1 <= s.len(),
        lex_next(s, p).0 != TokenView::Plain(Token::EOF) ==> p < lex_next(s, p).1,
{
    lemma_skip_ws(s, p);
    let q = skip_ws(s, p);
    if q < s.len() {
        lemma_ident_end(s, q);
        lemma_digits_end(s, q);
        lemma_quote_end(s, q + 1);
        if ident_start(s[q]) {
            assert(ident_char(s[q]));
            assert(ident_end(s, q) == ident_end(s, q + 1));
            lemma_ident_end(s, q + 1);
        } else if ascii_digit(s[q]) {
            assert(digits_end(s, q) == digits_end(s, q + 1));
            lemma_digits_end(s, q + 1);
        }
    }
}

proof fn lemma_skip_ws_all(s: Seq<char>, p: int)
    requires
        0 <= p <= s.len(),
    ensures
        (skip_ws(s, p) >= s.len()) == (forall|i: int| p <= i < s.len() ==> unicode_whitespace(#[trigger] s[i])),
    decreases s.len() - p,
{
    if p < s.len() && unicode_whitespace(s[p]) {
        lemma_skip_ws_all(s, p + 1);
        if forall|i: int| p + 1 <= i < s.len() ==> unicode_whitespace(#[trigger] s[i]) {
            assert forall|i: int| p <= i < s.len() implies unicode_whitespace(#[trigger] s[i]) by {
                if i > p {
                    assert(p + 1 <= i);
                }
            }
        }
    } else if p < s.len() {
        assert(!unicode_whitespace(s[p]));
    }
}

/// The end of the text: the next token from `p` is `EOF` exactly when
/// nothing but whitespace is left, and then all of it is consumed; from the
/// end of the text the next token is `EOF` again.
pub proof fn lemma_lex_next_eof(s: Seq<char>, p: int)
    requires
        0 <= p <= s.len(),
    ensures
        (lex_next(s, p).0 == TokenView::Plain(Token::EOF)) == (forall|i: int| p <= i < s.len() ==> unicode_whitespace(#[trigger] s[i])),
        lex_next(s, p).0 == TokenView::Plain(Token::EOF) ==> lex_next(s, p).1 == s.len(),
        lex_next(s, s.len() as int) == (TokenView::Plain(Token::EOF), s.len() as int),
{
    lemma_skip_ws(s, p);
    lemma_skip_ws_all(s, p);
    lemma_skip_ws(s, s.len() as int);
}

/// Lexing from `p` stops: it yields at most one token per character left,
/// and one more for the end.
pub proof fn lemma_lex_from_len(s: Seq<char>, p: int)
    requires
        0 <= p <= s.len(),
    ensures
        lex_from(s, p).len() <= s.len() - p + 1,
    decreases s.len() - p,
{
    lemma_lex_next_progress(s, p);
    let (t, q) = lex_next(s, p);
    if !(t == TokenView::Plain(Token::EOF) || q <= p || p < 0 || q > s.len()) {
        lemma_lex_from_len(s, q);
    }
}

/// How an operator or punctuation token is written in a source.
pub open spec fn symbol_spelling(t: Token) -> Option<Seq<char>> {
    match t {
        Token::LBrace => Some(seq!['{']),
        Token::RBrace => Some(seq!['}']),
        Token::LParen => Some(seq!['(']),
        Token::RParen => Some(seq![')']),
        Token::Colon => Some(seq![':']),
        Token::Equal => Some(seq!['=']),
        Token::EqualEqual => Some(seq!['=', '=']),
        Token::NotEqual => Some(seq!['!', '=']),
        Token::LessThan => Some(seq!['<']),
        Token::GreaterThan => Some(seq!['>']),
        Token::LTEqual => Some(seq!['<', '=']),
        Token::GTEqual => Some(seq!['>', '=']),
        Token::Arrow => Some(seq!['-', '>']),
        Token::Plus => Some(seq!['+']),
        Token::Minus => Some(seq!['-']),
        Token::Asterisk => Some(seq!['*']),
        Token::Slash => Some(seq!['/']),
        Token::Modulo => Some(seq!['%']),
        Token::Dot => Some(seq!['.']),
        Token::Comma => Some(seq![',']),
        _ => None,
    }
}

/// A symbol token is spelled by the text it was read from: when the next
/// token from `p` is an operator or punctuation mark, the characters that
/// the lexer consumed for it, after the whitespace, are its spelling.
pub proof fn lemma_symbol_spelled_as_read(s: Seq<char>, p: int)
    requires
        0 <= p <= s.len(),
    ensures
        lex_next(s, p).0 matches TokenView::Plain(t) ==> (symbol_spelling(t) matches Some(w) ==> {
            &&& lex_next(s, p).1 == skip_ws(s, p) + w.len()
            &&& s.subrange(skip_ws(s, p), lex_next(s, p).1) == w
        }),
{
    lemma_skip_ws(s, p);
    let q = skip_ws(s, p);
    if q < s.len() {
        assert(s.subrange(q, q + 1) =~= seq![s[q]]);
        if q + 1 < s.len() {
            assert(s.subrange(q, q + 2) =~= seq![s[q], s[q + 1]]);
        }
    }
}

/// Two-character operators are read whole: when the text after the
/// whitespace starts with the spelling of a two-character operator, that
/// operator is the next token and both characters are consumed.
pub proof fn lemma_two_char_symbol_read_whole(s: Seq<char>, p: int, t: Token)
    requires
        0 <= p <= s.len(),
        skip_ws(s, p) + 2 <= s.len(),
        symbol_spelling(t) == Some(s.subrange(skip_ws(s, p), skip_ws(s, p) + 2)),
    ensures
        lex_next(s, p) == (TokenView::Plain(t), skip_ws(s, p) + 2),
{
    lemma_skip_ws(s, p);
    let q = skip_ws(s, p);
    let w = s.subrange(q, q + 2);
    assert(w[0] == s[q] && w[1] == s[q + 1]);
    let v = symbol_spelling(t)->0;
    assert(v.len() == 2);
    match t {
        Token::EqualEqual => { assert(seq!['=', '='][0] == '=' && seq!['=', '='][1] == '='); },
        Token::NotEqual => { assert(seq!['!', '='][0] == '!' && seq!['!', '='][1] == '='); },
        Token::LTEqual => { assert(seq!['<', '='][0] == '<' && seq!['<', '='][1] == '='); },
        Token::GTEqual => { assert(seq!['>', '='][0] == '>' && seq!['>', '='][1] == '='); },
        Token::Arrow => { assert(seq!['-', '>'][0] == '-' && seq!['-', '>'][1] == '>'); },
        _ => {},
    }
}

/// A one-character symbol is read alone when no two-character operator
/// starts there: its token is the next one and one character is consumed.
pub proof fn lemma_one_char_symbol_read(s: Seq<char>, p: int, t: Token)
    requires
        0 <= p <= s.len(),
        skip_ws(s, p) < s.len(),
        symbol_spelling(t) == Some(seq![s[skip_ws(s, p)]]),
        !(skip_ws(s, p) + 1 < s.len() && exists|u: Token| #[trigger] symbol_spelling(u) == Some(seq![s[skip_ws(s, p)], s[skip_ws(s, p) + 1]])),
    ensures
        lex_next(s, p) == (TokenView::Plain(t), skip_ws(s, p) + 1),
{
    lemma_skip_ws(s, p);
    let q = skip_ws(s, p);
    let c = s[q];
    assert(seq![c][0] == c);
    assert(seq![c].len() == 1);
    match t {
        Token::LBrace => { assert(seq!['{'][0] == '{'); },
        Token::RBrace => { assert(seq!['}'][0] == '}'); },
        Token::LParen => { assert(seq!['('][0] == '('); },
        Token::RParen => { assert(seq![')'][0] == ')'); },
        Token::Colon => { assert(seq![':'][0] == ':'); },
        Token::Equal => { assert(seq!['='][0] == '='); },
        Token::LessThan => { assert(seq!['<'][0] == '<'); },
        Token::GreaterThan => { assert(seq!['>'][0] == '>'); },
        Token::Plus => { assert(seq!['+'][0] == '+'); },
        Token::Minus => { assert(seq!['-'][0] == '-'); },
        Token::Asterisk => { assert(seq!['*'][0] == '*'); },
        Token::Slash => { assert(seq!['/'][0] == '/'); },
        Token::Modulo => { assert(seq!['%'][0] == '%'); },
        Token::Dot => { assert(seq!['.'][0] == '.'); },
        Token::Comma => { assert(seq![','][0] == ','); },
        _ => {},
    }
    if q + 1 < s.len() {
        let d = s[q + 1];
        assert(symbol_spelling(Token::EqualEqual) == Some(seq!['=', '=']));
        assert(symbol_spelling(Token::NotEqual) == Some(seq!['!', '=']));
        assert(symbol_spelling(Token::LTEqual) == Some(seq!['<', '=']));
        assert(symbol_spelling(Token::GTEqual) == Some(seq!['>', '=']));
        assert(symbol_spelling(Token::Arrow) == Some(seq!['-', '>']));
        if c == '=' && d == '=' {
            assert(symbol_spelling(Token::EqualEqual) == Some(seq![c, d]));
        }
        if c == '<' && d == '=' {
            assert(symbol_spelling(Token::LTEqual) == Some(seq![c, d]));
        }
        if c == '>' && d == '=' {
            assert(symbol_spelling(Token::GTEqual) == Some(seq![c, d]));
        }
        if c == '-' && d == '>' {
            assert(symbol_spelling(Token::Arrow) == Some(seq![c, d]));
        }
    }
}

/// How a keyword is written in a source.
pub open spec fn keyword_spelling(t: Token) -> Option<Seq<char>> {
    match t {
        Token::System => Some(seq!['s', 'y', 's', 't', 'e', 'm']),
        Token::Module => Some(seq!['m', 'o', 'd', 'u', 'l', 'e']),
        Token::Domain => Some(seq!['d', 'o', 'm', 'a', 'i', 'n']),
        Token::State => Some(seq!['s', 't', 'a', 't', 'e']),
        Token::Transition => Some(seq!['t', 'r', 'a', 'n', 's', 'i', 't', 'i', 'o', 'n']),
        Token::Goal => Some(seq!['g', 'o', 'a', 'l']),
        Token::Reconcile => Some(seq!['r', 'e', 'c', 'o', 'n', 'c', 'i', 'l', 'e']),
        Token::Migration => Some(seq!['m', 'i', 'g', 'r', 'a', 't', 'i', 'o', 'n']),
        Token::Start => Some(seq!['s', 't', 'a', 'r', 't']),
        Token::Step => Some(seq!['s', 't', 'e', 'p']),
        Token::Slice => Some(seq!['s', 'l', 'i', 'c', 'e']),
        Token::Emit => Some(seq!['e', 'm', 'i', 't']),
        Token::Send => Some(seq!['s', 'e', 'n', 'd']),
        Token::SendHigh => Some(seq!['s', 'e', 'n', 'd', '_', 'h', 'i', 'g', 'h']),
        Token::On => Some(seq!['o', 'n']),
        Token::When => Some(seq!['w', 'h', 'e', 'n']),
        Token::Target => Some(seq!['t', 'a', 'r', 'g', 'e', 't']),
        Token::Strategy => Some(seq!['s', 't', 'r', 'a', 't', 'e', 'g', 'y']),
        Token::Priority => Some(seq!['p', 'r', 'i', 'o', 'r', 'i', 't', 'y']),
        Token::Scope => Some(seq!['s', 'c', 'o', 'p', 'e']),
        Token::Elevate => Some(seq!['e', 'l', 'e', 'v', 'a', 't', 'e']),
        Token::Capability => Some(seq!['c', 'a', 'p', 'a', 'b', 'i', 'l', 'i', 't', 'y']),
        Token::Public => Some(seq!['p', 'u', 'b', 'l', 'i', 'c']),
        Token::Private => Some(seq!['p', 'r', 'i', 'v', 'a', 't', 'e']),
        Token::Import => Some(seq!['i', 'm', 'p', 'o', 'r', 't']),
        Token::If => Some(seq!['i', 'f']),
        Token::Else => Some(seq!['e', 'l', 's', 'e']),
        Token::Let => Some(seq!['l', 'e', 't']),
        _ => None,
    }
}

/// A word is read as a keyword exactly when it is that keyword's spelling:
/// every keyword is recognised by its own spelling, and by nothing else.
pub proof fn lemma_keyword_is_its_spelling(w: Seq<char>, k: Token)
    ensures
        (keyword(w) == Some(k)) == (keyword_spelling(k) == Some(w)),
        keyword(w) is None ==> word_token(w) == TokenView::Ident(w),
{
    reveal_strlit("system");
    assert("system"@ =~= seq!['s', 'y', 's', 't', 'e', 'm']);
    reveal_strlit("module");
    assert("module"@ =~= seq!['m', 'o', 'd', 'u', 'l', 'e']);
    reveal_strlit("domain");
    assert("domain"@ =~= seq!['d', 'o', 'm', 'a', 'i', 'n']);
    reveal_strlit("state");
    assert("state"@ =~= seq!['s', 't', 'a', 't', 'e']);
    reveal_strlit("transition");
    assert("transition"@ =~= seq!['t', 'r', 'a', 'n', 's', 'i', 't', 'i', 'o', 'n']);
    reveal_strlit("goal");
    assert("goal"@ =~= seq!['g', 'o', 'a', 'l']);
    reveal_strlit("reconcile");
    assert("reconcile"@ =~= seq!['r', 'e', 'c', 'o', 'n', 'c', 'i', 'l', 'e']);
    reveal_strlit("migration");
    assert("migration"@ =~= seq!['m', 'i', 'g', 'r', 'a', 't', 'i', 'o', 'n']);
    reveal_strlit("start");
    assert("start"@ =~= seq!['s', 't', 'a', 'r', 't']);
    reveal_strlit("step");
    assert("step"@ =~= seq!['s', 't', 'e', 'p']);
    reveal_strlit("slice");
    assert("slice"@ =~= seq!['s', 'l', 'i', 'c', 'e']);
    reveal_strlit("emit");
    assert("emit"@ =~= seq!['e', 'm', 'i', 't']);
    reveal_strlit("send");
    assert("send"@ =~= seq!['s', 'e', 'n', 'd']);
    reveal_strlit("send_high");
    assert("send_high"@ =~= seq!['s', 'e', 'n', 'd', '_', 'h', 'i', 'g', 'h']);
    reveal_strlit("on");
    assert("on"@ =~= seq!['o', 'n']);
    reveal_strlit("when");
    assert("when"@ =~= seq!['w', 'h', 'e', 'n']);
    reveal_strlit("target");
    assert("target"@ =~= seq!['t', 'a', 'r', 'g', 'e', 't']);
    reveal_strlit("strategy");
    assert("strategy"@ =~= seq!['s', 't', 'r', 'a', 't', 'e', 'g', 'y']);
    reveal_strlit("priority");
    assert("priority"@ =~= seq!['p', 'r', 'i', 'o', 'r', 'i', 't', 'y']);
    reveal_strlit("scope");
    assert("scope"@ =~= seq!['s', 'c', 'o', 'p', 'e']);
    reveal_strlit("elevate");
    assert("elevate"@ =~= seq!['e', 'l', 'e', 'v', 'a', 't', 'e']);
    reveal_strlit("capability");
    assert("capability"@ =~= seq!['c', 'a', 'p', 'a', 'b', 'i', 'l', 'i', 't', 'y']);
    reveal_strlit("public");
    assert("public"@ =~= seq!['p', 'u', 'b', 'l', 'i', 'c']);
    reveal_strlit("private");
    assert("private"@ =~= seq!['p', 'r', 'i', 'v', 'a', 't', 'e']);
    reveal_strlit("import");
    assert("import"@ =~= seq!['i', 'm', 'p', 'o', 'r', 't']);
    reveal_strlit("if");
    assert("if"@ =~= seq!['i', 'f']);
    reveal_strlit("else");
    assert("else"@ =~= seq!['e', 'l', 's', 'e']);
    reveal_strlit("let");
    assert("let"@ =~= seq!['l', 'e', 't']);
}

/// A run of ASCII digits without a superfluous leading zero.
pub open spec fn plain_numeral(t: Seq<char>) -> bool {
    &&& t.len() > 0
    &&& forall|i: int| 0 <= i < t.len() ==> ascii_digit(#[trigger] t[i])
    &&& (t[0] == '0' ==> t.len() == 1)
}

proof fn lemma_numeral_positive(t: Seq<char>)
    requires
        plain_numeral(t),
        t[0] != '0',
    ensures
        digits_value(t) >= 1,
    decreases t.len(),
{
    if t.len() > 1 {
        let u = t.drop_last();
        assert(u[0] == t[0]);
        assert forall|i: int| 0 <= i < u.len() implies ascii_digit(#[trigger] u[i]) by {
            assert(u[i] == t[i]);
        }
        lemma_numeral_positive(u);
    } else {
        assert(t.drop_last().len() == 0);
        assert(t.last() == t[0]);
    }
}

proof fn lemma_numeral_round_trip(t: Seq<char>)
    requires
        plain_numeral(t),
    ensures
        nat_digits(digits_value(t)) == t,
    decreases t.len(),
{
    let c = t.last();
    assert(ascii_digit(t[t.len() - 1]));
    let d = ((c as nat) - 48) as nat;
    assert(d < 10);
    assert(digit_char(d) == c);
    if t.len() == 1 {
        assert(t.drop_last().len() == 0);
        assert(digits_value(t.drop_last()) == 0);
        assert(digits_value(t) == 0 * 10 + d);
        assert(nat_digits(d) =~= seq![digit_char(d)]);
        assert(t =~= seq![c]);
    } else {
        let u = t.drop_last();
        assert(u[0] == t[0]);
        assert(t[0] != '0');
        assert forall|i: int| 0 <= i < u.len() implies ascii_digit(#[trigger] u[i]) by {
            assert(u[i] == t[i]);
        }
        lemma_numeral_round_trip(u);
        lemma_numeral_positive(u);
        let v = digits_value(u);
        let n = v * 10 + d;
        assert(n / 10 == v && n % 10 == d) by (nonlinear_arith)
            requires
                n == v * 10 + d,
                d < 10,
        ;
        assert(n >= 10) by (nonlinear_arith)
            requires
                n == v * 10 + d,
                v >= 1,
        ;
        assert(digits_value(t) == n);
        assert(nat_digits(n) == nat_digits(v).push(digit_char(d)));
        assert(t =~= u.push(c));
    }
}

/// An integer literal is read as the number it writes: when the next token
/// is an integer, the digits consumed for it are that integer's decimal
/// text (for digits without a superfluous leading zero whose value fits in
/// an `i64`).
pub proof fn lemma_integer_read_as_written(s: Seq<char>, p: int)
    requires
        0 <= p <= s.len(),
    ensures
        lex_next(s, p).0 matches TokenView::Plain(Token::IntLiteral(v)) ==> ({
            let t = s.subrange(skip_ws(s, p), lex_next(s, p).1);
            plain_numeral(t) && digits_value(t) <= i64::MAX ==> int_text(v as int) == t
        }),
{
    lemma_skip_ws(s, p);
    let q = skip_ws(s, p);
    if q < s.len() && !ident_start(s[q]) && ascii_digit(s[q]) {
        let t = s.subrange(q, digits_end(s, q));
        if plain_numeral(t) && digits_value(t) <= i64::MAX {
            lemma_numeral_round_trip(t);
        }
    }
}

/// A string literal is read as the text between its quotes: the token's
/// text is what follows the opening quote up to the closing one (or the end
/// of the source), and holds no quote.
pub proof fn lemma_string_read_as_written(s: Seq<char>, p: int)
    requires
        0 <= p <= s.len(),
    ensures
        lex_next(s, p).0 matches TokenView::Str(text) ==> {
            &&& s[skip_ws(s, p)] == '"'
            &&& text == s.subrange(skip_ws(s, p) + 1, skip_ws(s, p) + 1 + text.len())
            &&& forall|i: int| 0 <= i < text.len() ==> #[trigger] text[i] != '"'
            &&& (lex_next(s, p).1 == s.len() || s[skip_ws(s, p) + 1 + text.len()] == '"')
        },
{
    lemma_skip_ws(s, p);
    let q = skip_ws(s, p);
    if q < s.len() && s[q] == '"' {
        lemma_quote_end(s, q + 1);
        lemma_quote_end_clear(s, q + 1);
        let e = quote_end(s, q + 1);
        let text = s.subrange(q + 1, e);
        assert forall|i: int| 0 <= i < text.len() implies #[trigger] text[i] != '"' by {
            assert(text[i] == s[q + 1 + i]);
        }
    }
}

proof fn lemma_quote_end_clear(s: Seq<char>, p: int)
    requires
        0 <= p <= s.len(),
    ensures
        forall|i: int| p <= i < quote_end(s, p) ==> #[trigger] s[i] != '"',
    decreases s.len() - p,
{
    if p < s.len() && s[p] != '"' {
        lemma_quote_end_clear(s, p + 1);
    }
}

proof fn lemma_ident_end_run(s: Seq<char>, p: int)
    requires
        0 <= p <= s.len(),
    ensures
        forall|i: int| p <= i < ident_end(s, p) ==> ident_char(#[trigger] s[i]),
        ident_end(s, p) < s.len() ==> !ident_char(s[ident_end(s, p)]),
    decreases s.len() - p,
{
    if p < s.len() && ident_char(s[p]) {
        lemma_ident_end_run(s, p + 1);
    }
}

/// A name is read whole: when the next token is an identifier, its text is
/// the characters consumed for it, a letter or `_` followed by letters,
/// digits and `_`, running up to a character that cannot continue it, and
/// it is not a keyword.
pub proof fn lemma_identifier_read_whole(s: Seq<char>, p: int)
    requires
        0 <= p <= s.len(),
    ensures
        lex_next(s, p).0 matches TokenView::Ident(w) ==> {
            &&& w == s.subrange(skip_ws(s, p), lex_next(s, p).1)
            &&& w.len() > 0
            &&& ident_start(w[0])
            &&& forall|i: int| 0 <= i < w.len() ==> ident_char(#[trigger] w[i])
            &&& (lex_next(s, p).1 == s.len() || !ident_char(s[lex_next(s, p).1]))
            &&& keyword(w) is None
        },
{
    lemma_skip_ws(s, p);
    let q = skip_ws(s, p);
    if q < s.len() && ident_start(s[q]) {
        lemma_ident_end(s, q);
        assert(ident_char(s[q]));
        assert(ident_end(s, q) == ident_end(s, q + 1));
        lemma_ident_end(s, q + 1);
        lemma_ident_end_run(s, q);
        let w = s.subrange(q, ident_end(s, q));
        assert forall|i: int| 0 <= i < w.len() implies ident_char(#[trigger] w[i]) by {
            assert(w[i] == s[q + i]);
        }
    }
}

pub struct Lexer<'a> {
    input: &'a str,
    chars: Vec<char>,
    position: usize,
}

impl<'a> Lexer<'a> {
    #[verifier::type_invariant]
    closed spec fn inv(self) -> bool {
        &&& self.chars@ == self.input@
        &&& self.position <= self.chars.len()
    }

    /// The text being scanned.
    pub closed spec fn text(self) -> Seq<char> {
        self.input@
    }

    /// The position, in characters, of the next token.
    pub closed spec fn pos(self) -> int {
        self.position as int
    }

    /// A lexer at the start of `input`.
    pub fn new(input: &'a str) -> (l: Self)
        ensures
            l.text() == input@,
            l.pos() == 0,
    {
        Lexer { input, chars: str_chars(input), position: 0 }
    }

    fn peek_char(&self) -> (r: Option<char>)
        ensures
            r == (if self.pos() < self.text().len() { Some(self.text()[self.pos()]) } else { None::<char> }),
    {
        proof { use_type_invariant(self); }
        if self.position < self.chars.len() {
            Some(self.chars[self.position])
        } else {
            None
        }
    }

    fn advance_char(&mut self) -> (r: Option<char>)
        ensures
            final(self).text() == old(self).text(),
            r == (if old(self).pos() < old(self).text().len() { Some(old(self).text()[old(self).pos()]) } else { None::<char> }),
            final(self).pos() == (if old(self).pos() < old(self).text().len() { old(self).pos() + 1 } else { old(self).pos() }),
    {
        proof { use_type_invariant(&*self); }
        let c = self.peek_char();
        if c.is_some() {
            self.position = self.position + 1;
        }
        c
    }

    fn skip_whitespace(&mut self)
        ensures
            final(self).text() == old(self).text(),
            final(self).pos() == skip_ws(old(self).text(), old(self).pos()),
    {
        proof { use_type_invariant(&*self); }
        loop
            invariant
                self.text() == old(self).text(),
                skip_ws(self.text(), self.pos()) == skip_ws(old(self).text(), old(self).pos()),
            ensures
                self.text() == old(self).text(),
                self.pos() == skip_ws(old(self).text(), old(self).pos()),
            decreases self.text().len() - self.pos(),
        {
            proof { use_type_invariant(&*self); }
            match self.peek_char() {
                Some(c) => {
                    if char_is_whitespace(c) {
                        self.advance_char();
                    } else {
                        break;
                    }
                },
                None => {
                    break;
                },
            }
        }
    }

    /// Moves past the run of characters accepted by `ident` (identifier
    /// characters) or else by ASCII digits.
    fn scan_run(&mut self, ident: bool)
        ensures
            final(self).text() == old(self).text(),
            final(self).pos() == (if ident { ident_end(old(self).text(), old(self).pos()) } else { digits_end(old(self).text(), old(self).pos()) }),
    {
        proof { use_type_invariant(&*self); }
        loop
            invariant
                self.text() == old(self).text(),
                ident ==> ident_end(self.text(), self.pos()) == ident_end(old(self).text(), old(self).pos()),
                !ident ==> digits_end(self.text(), self.pos()) == digits_end(old(self).text(), old(self).pos()),
            ensures
                self.text() == old(self).text(),
                self.pos() == (if ident { ident_end(old(self).text(), old(self).pos()) } else { digits_end(old(self).text(), old(self).pos()) }),
            decreases self.text().len() - self.pos(),
        {
            proof { use_type_invariant(&*self); }
            match self.peek_char() {
                Some(c) => {
                    let more = if ident { continues_identifier(c) } else { '0' <= c && c <= '9' };
                    if more {
                        self.advance_char();
                    } else {
                        break;
                    }
                },
                None => {
                    break;
                },
            }
        }
    }

    fn read_identifier_or_keyword(&mut self) -> (t: Token)
        ensures
            final(self).text() == old(self).text(),
            final(self).pos() == ident_end(old(self).text(), old(self).pos()),
            t@ == word_token(old(self).text().subrange(old(self).pos(), final(self).pos())),
    {
        proof { use_type_invariant(&*self); }
        let start = self.position;
        self.scan_run(true);
        proof {
            use_type_invariant(&*self);
            lemma_ident_end(self.text(), start as int);
        }
        let text = string_of_chars(&self.chars, start, self.position);
        keyword_or_identifier(text)
    }

    fn read_number(&mut self) -> (t: Token)
        ensures
            final(self).text() == old(self).text(),
            final(self).pos() == digits_end(old(self).text(), old(self).pos()),
            t@ == TokenView::Plain(Token::IntLiteral(literal_value(old(self).text().subrange(old(self).pos(), final(self).pos())))),
    {
        proof { use_type_invariant(&*self); }
        let start = self.position;
        self.scan_run(false);
        proof {
            use_type_invariant(&*self);
            lemma_digits_end(self.text(), start as int);
        }
        let v = parse_digits(&self.chars, start, self.position);
        Token::IntLiteral(v)
    }

    fn read_string(&mut self) -> (t: Token)
        requires
            old(self).pos() < old(self).text().len(),
        ensures
            final(self).text() == old(self).text(),
            ({
                let e = quote_end(old(self).text(), old(self).pos() + 1);
                &&& t@ == TokenView::Str(old(self).text().subrange(old(self).pos() + 1, e))
                &&& final(self).pos() == (if e < old(self).text().len() { e + 1 } else { e })
            }),
    {
        proof { use_type_invariant(&*self); }
        self.advance_char();
        let start = self.position;
        loop
            invariant
                self.text() == old(self).text(),
                start as int == old(self).pos() + 1,
                start <= self.pos(),
                quote_end(self.text(), self.pos()) == quote_end(old(self).text(), old(self).pos() + 1),
            ensures
                self.text() == old(self).text(),
                start as int == old(self).pos() + 1,
                self.pos() == quote_end(old(self).text(), old(self).pos() + 1),
            decreases self.text().len() - self.pos(),
        {
            proof { use_type_invariant(&*self); }
            match self.peek_char() {
                Some(c) => {
                    if c == '"' {
                        break;
                    }
                    self.advance_char();
                },
                None => {
                    break;
                },
            }
        }
        proof {
            use_type_invariant(&*self);
            lemma_quote_end(self.text(), start as int);
        }
        let text = string_of_chars(&self.chars, start, self.position);
        self.advance_char();
        Token::StringLiteral(text)
    }

    /// Scans the next token, as `lex_next` describes.
    pub fn next_token(&mut self) -> (t: Token)
        ensures
            final(self).text() == old(self).text(),
            (t@, final(self).pos()) == lex_next(old(self).text(), old(self).pos()),
    {
        proof {
            use_type_invariant(&*self);
            lemma_skip_ws(self.text(), self.pos());
        }
        self.skip_whitespace();
        let ch = match self.peek_char() {
            Some(c) => c,
            None => {
                return Token::EOF;
            },
        };
        if starts_identifier(ch) {
            return self.read_identifier_or_keyword();
        }
        if '0' <= ch && ch <= '9' {
            return self.read_number();
        }
        if ch == '"' {
            return self.read_string();
        }
        self.advance_char();
        if ch == '{' {
            Token::LBrace
        } else if ch == '}' {
            Token::RBrace
        } else if ch == '(' {
            Token::LParen
        } else if ch == ')' {
            Token::RParen
        } else if ch == ':' {
            Token::Colon
        } else if ch == '.' {
            Token::Dot
        } else if ch == ',' {
            Token::Comma
        } else if ch == '+' {
            Token::Plus
        } else if ch == '-' {
            if self.peek_char() == Some('>') {
                self.advance_char();
                Token::Arrow
            } else {
                Token::Minus
            }
        } else if ch == '*' {
            Token::Asterisk
        } else if ch == '/' {
            Token::Slash
        } else if ch == '%' {
            Token::Modulo
        } else if ch == '=' {
            if self.peek_char() == Some('=') {
                self.advance_char();
                Token::EqualEqual
            } else {
                Token::Equal
            }
        } else if ch == '!' {
            if self.peek_char() == Some('=') {
                self.advance_char();
                Token::NotEqual
            } else {
                Token::Unknown('!')
            }
        } else if ch == '<' {
            if self.peek_char() == Some('=') {
                self.advance_char();
                Token::LTEqual
            } else {
                Token::LessThan
            }
        } else if ch == '>' {
            if self.peek_char() == Some('=') {
                self.advance_char();
                Token::GTEqual
            } else {
                Token::GreaterThan
            }
        } else {
            Token::Unknown(ch)
        }
    }
}

/// The keyword token spelled by `text`, or an identifier holding it.
fn keyword_or_identifier(text: String) -> (t: Token)
    ensures
        t@ == word_token(text@),
{
    if string_is(&text, "system") { Token::System }
    else if string_is(&text, "module") { Token::Module }
    else if string_is(&text, "domain") { Token::Domain }
    else if string_is(&text, "state") { Token::State }
    else if string_is(&text, "transition") { Token::Transition }
    else if string_is(&text, "goal") { Token::Goal }
    else if string_is(&text, "reconcile") { Token::Reconcile }
    else if string_is(&text, "migration") { Token::Migration }
    else if string_is(&text, "start") { Token::Start }
    else if string_is(&text, "step") { Token::Step }
    else if string_is(&text, "slice") { Token::Slice }
    else if string_is(&text, "emit") { Token::Emit }
    else if string_is(&text, "send") { Token::Send }
    else if string_is(&text, "send_high") { Token::SendHigh }
    else if string_is(&text, "on") { Token::On }
    else if string_is(&text, "when") { Token::When }
    else if string_is(&text, "target") { Token::Target }
    else if string_is(&text, "strategy") { Token::Strategy }
    else if string_is(&text, "priority") { Token::Priority }
    else if string_is(&text, "scope") { Token::Scope }
    else if string_is(&text, "elevate") { Token::Elevate }
    else if string_is(&text, "capability") { Token::Capability }
    else if string_is(&text, "public") { Token::Public }
    else if string_is(&text, "private") { Token::Private }
    else if string_is(&text, "import") { Token::Import }
    else if string_is(&text, "if") { Token::If }
    else if string_is(&text, "else") { Token::Else }
    else if string_is(&text, "let") { Token::Let }
    else { Token::Identifier(text) }
}

/// The value of the digits `v[from..to]`, or 0 when it exceeds `i64::MAX`.
fn parse_digits(v: &Vec<char>, from: usize, to: usize) -> (r: i64)
    requires
        from <= to <= v.len(),
        forall|i: int| from <= i < to ==> ascii_digit(#[trigger] v@[i]),
    ensures
        r == literal_value(v@.subrange(from as int, to as int)),
{
    let mut acc: i64 = 0;
    let mut over = false;
    let mut i = from;
    while i < to
        invariant
            from <= i <= to <= v.len(),
            forall|k: int| from <= k < to ==> ascii_digit(#[trigger] v@[k]),
            over ==> digits_value(v@.subrange(from as int, i as int)) > i64::MAX,
            !over ==> acc >= 0 && acc as nat == digits_value(v@.subrange(from as int, i as int)),
        decreases to - i,
    {
        let c = v[i];
        let d: i64 = (c as u32 - 48) as i64;
        assert(v@.subrange(from as int, i + 1).drop_last() =~= v@.subrange(from as int, i as int));
        assert(v@.subrange(from as int, i + 1).last() == c);
        if !over {
            if acc > (i64::MAX - d) / 10 {
                over = true;
            } else {
                acc = acc * 10 + d;
            }
        }
        i = i + 1;
    }
    if over { 0 } else { acc }
}

/// The tokens of `input`, ending with `Token::EOF`.
pub fn lex(input: &str) -> (tokens: Vec<Token>)
    ensures
        tokens_view(tokens@) == lex_all(input@),
{
    let mut lexer = Lexer::new(input);
    let mut tokens: Vec<Token> = Vec::new();
    loop
        invariant_except_break
            lexer.text() == input@,
            0 <= lexer.pos() <= input@.len(),
            tokens_view(tokens@) + lex_from(input@, lexer.pos()) == lex_all(input@),
        ensures
            tokens_view(tokens@) == lex_all(input@),
        decreases input@.len() - lexer.pos(),
    {
        let ghost p = lexer.pos();
        proof { lemma_lex_next_progress(input@, p); }
        let tok = lexer.next_token();
        let ghost tv = tok@;
        if matches!(tok, Token::EOF) {
            tokens.push(tok);
            proof {
                assert(lex_from(input@, p) == seq![tv]);
                assert(tokens_view(tokens@) =~= tokens_view(tokens@.drop_last()).push(tv));
            }
            break;
        }
        tokens.push(tok);
        proof {
            assert(tv != TokenView::Plain(Token::EOF));
            assert(lex_from(input@, p) == seq![tv].add(lex_from(input@, lexer.pos())));
            assert(tokens_view(tokens@) =~= tokens_view(tokens@.drop_last()).push(tv));
        }
    }
    tokens
}

} // verus!
