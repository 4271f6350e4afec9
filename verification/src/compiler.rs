//! The compiler pipeline: lexing, parsing, semantic checks and code
//! generation of a Ved source text.

use vstd::prelude::*;
use crate::ast::StatementView;
use crate::bytecode::BytecodeProgram;
use crate::codegen::{CodeGenerator, domain_decls, program_compiles, program_fits, program_is};
use crate::lexer::{Token, TokenView, lex, lex_all, tokens_view};
use crate::parser::{Parsed, spec_parse, try_parse};
use crate::semantic::{SemanticError, SemanticValidator, errors_view, validation};
use crate::text::push_char;

verus! {

/// The first unknown character among the tokens, if any.
pub open spec fn first_unknown(ts: Seq<TokenView>) -> Option<char>
    decreases ts.len(),
{
    if ts.len() == 0 {
        None
    } else {
        match ts[0] {
            TokenView::Plain(Token::Unknown(c)) => Some(c),
            _ => first_unknown(ts.drop_first()),
        }
    }
}

/// The messages joined by line breaks.
pub open spec fn join_lines(msgs: Seq<Seq<char>>) -> Seq<char>
    decreases msgs.len(),
{
    if msgs.len() == 0 {
        Seq::empty()
    } else if msgs.len() == 1 {
        msgs[0]
    } else {
        join_lines(msgs.drop_last()) + "\n"@ + msgs.last()
    }
}

/// The semantic errors of a parsed program, in order.
pub open spec fn semantic_errors(ast: Seq<StatementView>) -> Seq<Seq<char>> {
    validation(Map::empty(), ast).1
}

/// The source can be compiled without a panic or an endless loop: its
/// tokens parse without either, and a program that parses and passes the
/// checks has units that the generator can compile.
pub open spec fn source_supported(s: Seq<char>) -> bool {
    let ts = lex_all(s);
    first_unknown(ts) is None ==> {
        &&& spec_parse(ts).defined()
        &&& match spec_parse(ts) {
            Parsed::Done(ast, _) => semantic_errors(ast).len() == 0 ==> program_compiles(ast),
            _ => true,
        }
    }
}

/// What compiling `s` gives: an error for the first unknown character,
/// the parse error, the semantic errors, or the program's bytecode.
pub open spec fn compile_result_is(r: Result<BytecodeProgram, String>, s: Seq<char>) -> bool {
    let ts = lex_all(s);
    match first_unknown(ts) {
        Some(c) => r matches Err(e) && e@ == "Unknown character: "@ + seq![c],
        None => match spec_parse(ts) {
            Parsed::Fail(m, _) => r matches Err(e) && e@ == m,
            Parsed::Done(ast, _) => if semantic_errors(ast).len() != 0 {
                r matches Err(e) && e@ == "Semantic Errors:\n"@ + join_lines(semantic_errors(ast))
            } else {
                r matches Ok(p) && program_is(p, domain_decls(ast))
            },
            _ => false,
        },
    }
}

fn find_unknown(tokens: &Vec<Token>) -> (r: Option<char>)
    ensures
        r == first_unknown(tokens_view(tokens@)),
{
    let ghost ts = tokens_view(tokens@);
    let mut i: usize = 0;
    assert(ts.subrange(0, ts.len() as int) =~= ts);
    while i < tokens.len()
        invariant
            i <= tokens.len(),
            ts == tokens_view(tokens@),
            first_unknown(ts.subrange(i as int, ts.len() as int)) == first_unknown(ts),
        decreases tokens.len() - i,
    {
        assert(ts.subrange(i as int, ts.len() as int).drop_first() =~= ts.subrange(i + 1, ts.len() as int));
        assert(ts.subrange(i as int, ts.len() as int)[0] == tokens@[i as int]@);
        if let Token::Unknown(c) = &tokens[i] {
            return Some(*c);
        }
        i = i + 1;
    }
    None
}

fn join_messages(errors: &Vec<SemanticError>) -> (s: String)
    ensures
        s@ == join_lines(errors_view(errors@)),
{
    let ghost ev = errors_view(errors@);
    let mut s = String::new();
    let mut i: usize = 0;
    while i < errors.len()
        invariant
            i <= errors.len(),
            ev == errors_view(errors@),
            s@ == join_lines(ev.subrange(0, i as int)),
        decreases errors.len() - i,
    {
        assert(ev.subrange(0, i + 1).drop_last() =~= ev.subrange(0, i as int));
        if i > 0 {
            s.append("\n");
        }
        s.append(errors[i].message.as_str());
        i = i + 1;
    }
    assert(ev.subrange(0, i as int) =~= ev);
    s
}

/// Compiles a Ved source text to bytecode, as `compile_result_is`
/// describes. Sources on which a stage would panic or loop forever are
/// excluded.
pub fn compile_source(source: &str) -> (r: Result<BytecodeProgram, String>)
    requires
        source_supported(source@),
    ensures
        compile_result_is(r, source@),
{
    match try_compile_source(source) {
        Some(r) => r,
        None => {
            assert(false);
            Err(String::new())
        },
    }
}

/// `compile_source` for any source: `None` where the parser would panic or
/// loop forever, or the generator would run out of registers.
pub fn try_compile_source(source: &str) -> (r: Option<Result<BytecodeProgram, String>>)
    ensures
        r is None <==> !source_supported(source@),
        r matches Some(x) ==> compile_result_is(x, source@),
{
    let tokens = lex(source);
    match find_unknown(&tokens) {
        Some(c) => {
            let mut e = String::from_str("Unknown character: ");
            push_char(&mut e, c);
            assert(e@ =~= "Unknown character: "@ + seq![c]);
            return Some(Err(e));
        },
        None => {},
    }
    let ast = match try_parse(tokens) {
        Some(Ok(a)) => a,
        Some(Err(e)) => {
            return Some(Err(e));
        },
        None => {
            return None;
        },
    };
    let mut validator = SemanticValidator::new();
    match validator.validate(&ast) {
        Ok(()) => {},
        Err(errors) => {
            let mut e = String::from_str("Semantic Errors:\n");
            let joined = join_messages(&errors);
            e.append(joined.as_str());
            return Some(Err(e));
        },
    }
    if !program_fits(&ast) {
        return None;
    }
    let generator = CodeGenerator::new();
    let program = generator.generate(&ast);
    Some(Ok(program))
}

} // verus!
