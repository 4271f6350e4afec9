use ved::ast::Statement;
use ved::bytecode::{BinaryPacker, Constant, OpCode};
use ved::codegen::CodeGenerator;
use ved::compiler::{compile_source, try_compile_source};
use ved::lexer::{lex, Lexer, Token};
use ved::parser::{parse, try_parse};
use ved::semantic::SemanticValidator;

const WEB_SERVER: &str = r#"
        domain WebServer {
            state {
                status: string
                port: int
            }
            goal is_running {
                target status == "online"
            }
            transition start_server {
                slice step {
                    status = "online"
                    port = port + 1
                }
            }
        }
        "#;

#[test]
fn test_codegen_basic() {
    let ast = parse(lex(WEB_SERVER)).unwrap();
    let mut validator = SemanticValidator::new();
    validator.validate(&ast).unwrap();

    let codegen = CodeGenerator::new();
    let program = codegen.generate(&ast);

    assert_eq!(program.domains.len(), 1);
    let domain = &program.domains[0];

    assert_eq!(domain.name, "WebServer");
    assert_eq!(domain.state_schema, vec!["status".to_string(), "port".to_string()]);

    let goal = &domain.goals[0];
    assert_eq!(goal.name, "is_running");
    assert!(goal.instructions.len() > 0);

    let trans = &domain.transitions[0];
    assert_eq!(trans.name, "start_server");

    assert!(matches!(trans.instructions.last().unwrap(), OpCode::HaltSlice));
}

#[test]
fn test_parse_domain_pseudocode() {
    let input = r#"
        domain WebServer {
            state {
                status: string
                port: int
            }
            
            goal is_running {
                target status == "online"
            }
            
            transition start_server {
                slice step {
                    status = "online"
                }
            }
        }
        "#;

    let tokens = lex(input);
    let result = parse(tokens);

    assert!(result.is_ok(), "Failed to parse AST: {}", result.as_ref().err().cloned().unwrap_or_default());

    let ast = result.unwrap();
    assert_eq!(ast.statements.len(), 1);

    if let Statement::DomainDecl(domain) = &ast.statements[0] {
        assert_eq!(domain.name, "WebServer");
        assert_eq!(domain.state.len(), 2);
        assert_eq!(domain.state[0].name, "status");
        assert_eq!(domain.state[1].typ, "int");

        assert_eq!(domain.goals.len(), 1);
        assert_eq!(domain.goals[0].name, "is_running");

        assert_eq!(domain.transitions.len(), 1);
        assert_eq!(domain.transitions[0].name, "start_server");
    } else {
        panic!("Expected DomainDecl statement");
    }
}

#[test]
fn test_valid_semantic() {
    let input = r#"
        domain WebServer {
            state {
                status: string
                port: int
            }
            goal is_running {
                target status == "online"
            }
            transition start_server {
                slice step {
                    status = "online"
                }
            }
        }
        "#;
    let ast = parse(lex(input)).unwrap();
    let mut validator = SemanticValidator::new();
    let result = validator.validate(&ast);
    assert!(result.is_ok(), "Should pass semantic validation");
}

#[test]
fn test_invalid_semantic_variable() {
    let input = r#"
        domain WebServer {
            state {
                port: int
            }
            transition start_server {
                slice step {
                    status = "online"
                }
            }
        }
        "#;
    let ast = parse(lex(input)).unwrap();
    let mut validator = SemanticValidator::new();
    let result = validator.validate(&ast);
    assert!(result.is_err());
    let errors = result.err().unwrap();
    assert_eq!(errors.len(), 1);
    assert!(errors[0].message.contains("undefined state variable 'status'"));
}

#[test]
fn lexer_tokens_in_order() {
    let tokens = lex("state { x: int } x = 42 \"hi\"");
    assert_eq!(tokens.len(), 11);
    assert_eq!(tokens[0], Token::State);
    assert_eq!(tokens[1], Token::LBrace);
    assert_eq!(tokens[2], Token::Identifier("x".to_string()));
    assert_eq!(tokens[3], Token::Colon);
    assert_eq!(tokens[4], Token::Identifier("int".to_string()));
    assert_eq!(tokens[5], Token::RBrace);
    assert_eq!(tokens[6], Token::Identifier("x".to_string()));
    assert_eq!(tokens[7], Token::Equal);
    assert_eq!(tokens[8], Token::IntLiteral(42));
    assert_eq!(tokens[9], Token::StringLiteral("hi".to_string()));
    assert_eq!(tokens[10], Token::EOF);
}

#[test]
fn lexer_next_token_matches_lex() {
    let src = "domain D { }";
    let mut lexer = Lexer::new(src);
    let mut from_lexer = Vec::new();
    loop {
        let t = lexer.next_token();
        let end = t == Token::EOF;
        from_lexer.push(t);
        if end {
            break;
        }
    }
    assert_eq!(from_lexer, lex(src));
}

#[test]
fn compile_reports_unknown_character() {
    let r = compile_source("domain D { state { x: int } } $");
    assert_eq!(r.err().unwrap(), "Unknown character: $");
}

#[test]
fn compile_reports_semantic_errors() {
    let r = compile_source(
        "domain D { state { x: int } transition t { slice step { y = 1 } } }",
    );
    let e = r.err().unwrap();
    assert!(e.starts_with("Semantic Errors:\n"));
    assert!(e.contains("undefined state variable 'y'"));
}

#[test]
fn compile_produces_program() {
    let program = compile_source(WEB_SERVER).unwrap();
    assert_eq!(program.domains.len(), 1);
    let d = &program.domains[0];
    assert_eq!(d.name, "WebServer");
    assert_eq!(d.transitions.len(), 1);
    assert_eq!(d.goals.len(), 1);
    assert!(d.transitions[0].constants.iter().any(|c| matches!(c, Constant::String(s) if s == "online")));
}

#[test]
fn serialize_starts_with_magic_and_version() {
    let program = compile_source(WEB_SERVER).unwrap();
    let bytes = BinaryPacker::serialize(&program);
    assert_eq!(&bytes[0..5], &[0x56, 0x45, 0x44, 0x43, 1]);
    // one domain, little-endian u16
    assert_eq!(&bytes[5..7], &[1, 0]);
    // the domain's name, length-prefixed
    assert_eq!(&bytes[7..9], &[9, 0]);
    assert_eq!(&bytes[9..18], b"WebServer");
}

#[test]
fn opcode_pack_layout() {
    let mut buf = Vec::new();
    OpCode::LoadConst { const_idx: 0x0102, dest_reg: 7 }.pack(&mut buf);
    assert_eq!(buf, vec![0x01, 2, 0x02, 0x01, 0, 0, 7]);
    let mut buf2 = Vec::new();
    OpCode::HaltSlice.pack(&mut buf2);
    assert_eq!(buf2, vec![0xFF, 0]);
}

#[test]
fn multiplication_is_not_handled_by_the_parser() {
    let src = "domain D { state { x: int } transition t { slice step { x = x * 2 } } }";
    assert!(try_parse(lex(src)).is_none());
    assert!(try_compile_source(src).is_none());
}

#[test]
fn try_compile_agrees_with_compile() {
    let a = try_compile_source(WEB_SERVER).unwrap().unwrap();
    let b = compile_source(WEB_SERVER).unwrap();
    assert_eq!(BinaryPacker::serialize(&a), BinaryPacker::serialize(&b));
    assert_eq!(
        try_compile_source("domain D { state { x: int } } $").unwrap().err().unwrap(),
        "Unknown character: $"
    );
}

#[test]
fn parse_errors_name_what_was_found() {
    let r = parse(lex("domain { }"));
    assert_eq!(r.err().unwrap(), "Expected identifier after 'domain', found '{'");
    let r = parse(lex("state"));
    assert_eq!(r.err().unwrap(), "Unexpected token at top level: 'state'");
}

#[test]
fn too_many_registers_are_refused() {
    let mut body = String::new();
    for _ in 0..300 {
        body.push_str("x = 1\n");
    }
    let src = format!("domain D {{ state {{ x: int }} transition t {{ slice step {{ {} }} }} }}", body);
    assert!(try_compile_source(&src).is_none());
}

#[test]
fn compile_accepts_bare_send_and_nested_if() {
    let src = "
    domain CounterA {
        state {
            val: int
        }
        transition tick {
            slice step {
                val = val + 1
                send CounterB tock
            }
        }
    }
    domain CounterB {
        state {
            val: int
        }
        transition tock {
            slice step {
                val = val + 2
                if val < 6 {
                    send CounterA tick
                }
            }
        }
    }
    ";
    let program = compile_source(src).unwrap();
    assert_eq!(program.domains.len(), 2);
    let a = &program.domains[0];
    assert!(a.transitions[0].instructions.iter().any(|i| matches!(i, OpCode::SendMsg { .. })));
    assert!(a.transitions[0].constants.iter().any(|c| matches!(c, Constant::String(s) if s == "CounterB")));
    assert!(a.transitions[0].constants.iter().any(|c| matches!(c, Constant::String(s) if s == "tock")));
    let b = &program.domains[1];
    assert!(b.transitions[0].instructions.iter().any(|i| matches!(i, OpCode::SendMsg { .. })));
}

#[test]
fn compile_skips_capability_blocks() {
    let with_caps = "domain Target { capability { messaging, send_to:Target } state { _x: int } \
        transition oscillate { capability { messaging, send_to:Target } slice step { send(\"Target\", \"oscillate\") } } }";
    let without = "domain Target { state { _x: int } \
        transition oscillate { slice step { send(\"Target\", \"oscillate\") } } }";
    let a = compile_source(with_caps).unwrap();
    let b = compile_source(without).unwrap();
    assert_eq!(BinaryPacker::serialize(&a), BinaryPacker::serialize(&b));
}

#[test]
fn bare_send_compiles_like_call_form() {
    let bare = "domain D { state { x: int } transition t { slice step { send D t } } }";
    let call = "domain D { state { x: int } transition t { slice step { send(\"D\", \"t\") } } }";
    let a = compile_source(bare).unwrap();
    let b = compile_source(call).unwrap();
    assert_eq!(BinaryPacker::serialize(&a), BinaryPacker::serialize(&b));
}

#[test]
fn lexer_skips_unicode_white_space() {
    let tokens = lex("a\u{3000}b\u{85}c\u{2028}\td\u{a0}e");
    assert_eq!(
        tokens,
        vec![
            Token::Identifier("a".to_string()),
            Token::Identifier("b".to_string()),
            Token::Identifier("c".to_string()),
            Token::Identifier("d".to_string()),
            Token::Identifier("e".to_string()),
            Token::EOF,
        ]
    );
}

#[test]
fn lexer_whitespace_agrees_with_std() {
    for u in 0u32..0x3100 {
        if let Some(c) = char::from_u32(u) {
            if c == '"' || c == '/' {
                continue;
            }
            let src = format!("a{}b", c);
            let tokens = lex(&src);
            if c.is_whitespace() {
                assert_eq!(
                    tokens,
                    vec![Token::Identifier("a".to_string()), Token::Identifier("b".to_string()), Token::EOF],
                    "U+{:04X}",
                    u
                );
            } else {
                assert_ne!(tokens.len(), 3, "U+{:04X}", u);
            }
        }
    }
}
