use minicc::ast;
use minicc::cfg::{BinOp, CFGBuildContext, ControlFlowGraph, LoweringError, Statement};
use minicc::codegen::{
    assign_to_asm, cfg_to_asm, return_to_asm, var_to_reg, CodegenError, RegisterGP,
};
use minicc::compiler::{compile, compile_tokens, CompileError};
use minicc::parser::{parse, ParseError};
use minicc::symantic_check::{check_syntax, SemanticError};
use minicc::symbol_table::SymbolTableError;
use minicc::tokenizer::{tokenize, Token, TokenizeError};
use std::collections::HashMap;

fn program(text: &str) -> Vec<ast::Declaration> {
    let tokens = tokenize(text).unwrap();
    parse(&tokens).unwrap()
}

fn assign(var: &str, value: u64) -> Statement {
    Statement::Assign { var: var.to_owned(), value }
}

fn single_block(block: Vec<Statement>) -> ControlFlowGraph {
    ControlFlowGraph(HashMap::from([(0, block)]))
}

#[test]
fn test_cfg_var_declare() {
    let vd = ast::Statement::VarDeclare {
        name: "x".to_owned(),
        var_type: ast::Type::Int,
        value: Some(ast::Expr::IntLiteral(123)),
    };

    let mut context = CFGBuildContext::new();
    assert_eq!(
        ControlFlowGraph::process(&vd, &mut context).unwrap(),
        vec![Statement::Assign { var: "v1".to_owned(), value: 123 }]
    );
    assert_eq!(
        ControlFlowGraph::process(&vd, &mut context).unwrap(),
        vec![Statement::Assign { var: "v2".to_owned(), value: 123 }]
    );
}

#[test]
fn test_return_int_literal() {
    let ret = ast::Statement::Return(ast::Expr::IntLiteral(123));
    let mut context = CFGBuildContext::new();
    assert_eq!(
        ControlFlowGraph::process(&ret, &mut context).unwrap(),
        vec![
            Statement::Assign { var: "v1".to_owned(), value: 123 },
            Statement::Return("v1".to_owned()),
        ]
    );
}

#[test]
fn test_return_var() {
    let ret = ast::Statement::Return(ast::Expr::Variable("x".to_owned()));

    let mut context = CFGBuildContext::new();
    context.register_var("x".to_owned());

    assert_eq!(
        ControlFlowGraph::process(&ret, &mut context).unwrap(),
        vec![Statement::Return("v1".to_owned()),]
    );
}

#[test]
fn test_cfg_integration() {
    let s = "int main() {\n    int x = 123;\n    return x;\n}\n";
    let tokens = tokenize(s).unwrap();
    let ast = parse(&tokens).unwrap();
    check_syntax(&ast).unwrap();
    let cfg = ControlFlowGraph::from(&ast).unwrap();

    println!("CFG: {:?}", cfg);

    let control_block = vec![
        Statement::Assign { var: "v1".to_owned(), value: 123 },
        Statement::Return("v1".to_owned()),
    ];
    let expected = ControlFlowGraph(HashMap::from([(0, control_block)]));

    assert_eq!(cfg, expected);
}

#[test]
fn cfg_uninitialized_declaration_gets_a_name_and_no_instruction() {
    let ast = program("int main() { int x; return x; }");
    assert_eq!(
        ControlFlowGraph::from(&ast).unwrap(),
        single_block(vec![Statement::Return("v1".to_owned())])
    );
    let ast = program("int main() { int x; int y = 7; return y; }");
    assert_eq!(
        ControlFlowGraph::from(&ast).unwrap(),
        single_block(vec![assign("v2", 7), Statement::Return("v2".to_owned())])
    );
    let mut context = CFGBuildContext::new();
    let declaration =
        ast::Statement::VarDeclare { name: "x".to_owned(), var_type: ast::Type::Int, value: None };
    assert_eq!(ControlFlowGraph::process(&declaration, &mut context), Ok(vec![]));
    assert_eq!(context.lookup(&"x".to_owned()), Some(&"v1".to_owned()));
}

#[test]
fn cfg_empty_body_is_an_empty_block() {
    let ast = program("int main() { }");
    assert_eq!(ControlFlowGraph::from(&ast).unwrap(), single_block(vec![]));
    assert_eq!(ControlFlowGraph::new(), ControlFlowGraph(HashMap::new()));
}

#[test]
fn cfg_names_count_past_nine() {
    let mut context = CFGBuildContext::new();
    let mut last = String::new();
    for _ in 0..12 {
        last = context.inc();
    }
    assert_eq!(last, "v12");
    context.register_var("x".to_owned());
    assert_eq!(context.lookup(&"x".to_owned()), Some(&"v13".to_owned()));
    assert_eq!(context.lookup(&"y".to_owned()), None);
}

#[test]
fn cfg_redeclared_variable_takes_the_newest_name() {
    let mut context = CFGBuildContext::new();
    context.register_var("x".to_owned());
    context.register_var("y".to_owned());
    context.register_var("x".to_owned());
    assert_eq!(context.lookup(&"x".to_owned()), Some(&"v3".to_owned()));
    assert_eq!(context.lookup(&"y".to_owned()), Some(&"v2".to_owned()));
}

#[test]
fn cfg_if_is_not_implemented() {
    let ast = program("int main() { int x = 1; if (x) { return 1; } return 0; }");
    assert_eq!(ControlFlowGraph::from(&ast), Err(LoweringError::NotImplemented));
}

#[test]
fn cfg_expression_statement_is_not_implemented() {
    let ast = program("int main() { int x = 1; x = 2; }");
    assert_eq!(ControlFlowGraph::from(&ast), Err(LoweringError::NotImplemented));
}

#[test]
fn cfg_initializer_must_be_a_number() {
    let ast = program("int main() { int x = 1; int y = x; }");
    assert_eq!(ControlFlowGraph::from(&ast), Err(LoweringError::ExpectedIntLiteral));
    let mut context = CFGBuildContext::new();
    let declaration = ast::Statement::VarDeclare {
        name: "s".to_owned(),
        var_type: ast::Type::Int,
        value: Some(ast::Expr::StringLiteral("text".to_owned())),
    };
    assert_eq!(
        ControlFlowGraph::process_var_declare(&declaration, &mut context),
        Err(LoweringError::ExpectedIntLiteral)
    );
    // The variable has its name all the same.
    assert_eq!(context.lookup(&"s".to_owned()), Some(&"v1".to_owned()));
}

#[test]
fn cfg_return_of_an_operation_is_unsupported() {
    let ast = program("int main() { return 1 + 2; }");
    assert_eq!(ControlFlowGraph::from(&ast), Err(LoweringError::UnsupportedReturn));
}

#[test]
fn cfg_return_of_undeclared_variable_is_unbound() {
    let ast = program("int main() { return x; int x = 1; }");
    assert_eq!(ControlFlowGraph::from(&ast), Err(LoweringError::UnboundVariable("x".to_owned())));
}

#[test]
fn cfg_process_functions_refuse_other_statements() {
    let mut context = CFGBuildContext::new();
    let ret = ast::Statement::Return(ast::Expr::IntLiteral(1));
    let declaration =
        ast::Statement::VarDeclare { name: "x".to_owned(), var_type: ast::Type::Int, value: None };
    assert_eq!(
        ControlFlowGraph::process_var_declare(&ret, &mut context),
        Err(LoweringError::ExpectedVarDeclare)
    );
    assert_eq!(
        ControlFlowGraph::process_return(&declaration, &mut context),
        Err(LoweringError::UnsupportedReturn)
    );
    assert_eq!(context.inc(), "v1");
}

#[test]
fn codegen_integration_return() {
    let s = "int main() {\n    int x = 123;\n    return x;\n}\n";
    let tokens = tokenize(s).unwrap();
    let ast = parse(&tokens).unwrap();
    check_syntax(&ast).unwrap();
    let cfg = ControlFlowGraph::from(&ast).unwrap();
    let lines = cfg_to_asm(&cfg).unwrap();

    println!("CFG: {:?}", cfg);
    let expected = vec![".global main", "main:", "mov $123, %rbx", "mov %rbx, %rax"];
    assert_eq!(lines, expected);
}

#[test]
fn codegen_empty_block_is_the_header() {
    assert_eq!(cfg_to_asm(&single_block(vec![])).unwrap(), vec![".global main", "main:"]);
}

#[test]
fn codegen_register_table() {
    assert_eq!(var_to_reg(&"v1".to_owned()), Ok(RegisterGP::RBX));
    assert_eq!(var_to_reg(&"v2".to_owned()), Ok(RegisterGP::RCX));
    assert_eq!(var_to_reg(&"v3".to_owned()), Ok(RegisterGP::RDX));
    assert_eq!(var_to_reg(&"v4".to_owned()), Ok(RegisterGP::R8));
    assert_eq!(var_to_reg(&"v5".to_owned()), Ok(RegisterGP::R9));
    assert_eq!(var_to_reg(&"v6".to_owned()), Err(CodegenError::UnmappedVariable("v6".to_owned())));
    assert_eq!(var_to_reg(&"x".to_owned()), Err(CodegenError::UnmappedVariable("x".to_owned())));
    assert_eq!(RegisterGP::R8.name(), "r8");
    assert_eq!(RegisterGP::R15.name(), "r15");
}

#[test]
fn codegen_lines_for_each_register() {
    assert_eq!(assign_to_asm(&"v2".to_owned(), 0).unwrap(), vec!["mov $0, %rcx"]);
    assert_eq!(
        assign_to_asm(&"v4".to_owned(), u64::MAX).unwrap(),
        vec!["mov $18446744073709551615, %r8"]
    );
    assert_eq!(return_to_asm(&"v5".to_owned()).unwrap(), vec!["mov %r9, %rax"]);
    assert_eq!(return_to_asm(&"v3".to_owned()).unwrap(), vec!["mov %rdx, %rax"]);
    assert_eq!(
        return_to_asm(&"v0".to_owned()),
        Err(CodegenError::UnmappedVariable("v0".to_owned()))
    );
}

#[test]
fn codegen_sixth_variable_has_no_register() {
    let block = vec![
        assign("v1", 1),
        assign("v2", 2),
        assign("v3", 3),
        assign("v4", 4),
        assign("v5", 5),
        assign("v6", 6),
    ];
    assert_eq!(
        cfg_to_asm(&single_block(block)),
        Err(CodegenError::UnmappedVariable("v6".to_owned()))
    );
}

#[test]
fn codegen_other_instructions_are_unsupported() {
    assert_eq!(
        cfg_to_asm(&single_block(vec![assign("v1", 1), Statement::Goto(0)])),
        Err(CodegenError::UnsupportedStatement)
    );
    let operation = Statement::Operation {
        dest: "v3".to_owned(),
        op: BinOp::Add,
        lhs: "v1".to_owned(),
        rhs: "v2".to_owned(),
    };
    assert_eq!(cfg_to_asm(&single_block(vec![operation])), Err(CodegenError::UnsupportedStatement));
}

#[test]
fn compile_end_to_end() {
    let source = "int main() { int x = 123; return x; }";
    let tokens = tokenize(source).unwrap();
    assert_eq!(tokens.len(), 14);
    let ast = parse(&tokens).unwrap();
    match &ast[0] {
        ast::Declaration::Function { scope, .. } => {
            assert_eq!(scope.id, 1);
            assert_eq!(scope.statements.len(), 2);
            assert!(matches!(scope.statements[0], ast::Statement::VarDeclare { .. }));
            assert!(matches!(scope.statements[1], ast::Statement::Return(_)));
        }
    }
    let table = check_syntax(&ast).unwrap();
    assert_eq!(
        table.get(1, "x"),
        Some(&ast::VarInfo { name: "x".to_owned(), var_type: ast::Type::Int })
    );
    let cfg = ControlFlowGraph::from(&ast).unwrap();
    assert_eq!(cfg, single_block(vec![assign("v1", 123), Statement::Return("v1".to_owned())]));
    assert_eq!(
        cfg_to_asm(&cfg).unwrap(),
        vec![".global main", "main:", "mov $123, %rbx", "mov %rbx, %rax"]
    );
    assert_eq!(
        compile(source).unwrap(),
        vec![".global main", "main:", "mov $123, %rbx", "mov %rbx, %rax"]
    );
}

#[test]
fn compile_twice_gives_the_same_lines() {
    let source = "int main() { int a = 1; int b = 2; return 3; }";
    let first = compile(source);
    let second = compile(source);
    assert_eq!(first, second);
    assert_eq!(
        first.unwrap(),
        vec![
            ".global main",
            "main:",
            "mov $1, %rbx",
            "mov $2, %rcx",
            "mov $3, %rdx",
            "mov %rdx, %rax"
        ]
    );
    let failing = "int main() { return y; }";
    assert_eq!(compile(failing), compile(failing));
}

#[test]
fn compile_reports_the_stage_that_fails() {
    assert_eq!(
        compile("int main() { return 1 ? 2; }"),
        Err(CompileError::Tokenize(TokenizeError::UnexpectedCharacter {
            position: 22,
            character: '?'
        }))
    );
    assert_eq!(compile("int start() { return 1; }"), Err(CompileError::NotMain));
    assert_eq!(compile(""), Err(CompileError::NotMain));
    assert_eq!(
        compile("int main() { return 1 }"),
        Err(CompileError::Parse(ParseError::Expected {
            expected: Token::Semicolon,
            found: Some(Token::CloseBrace)
        }))
    );
    assert_eq!(
        compile("int main() { return y; }"),
        Err(CompileError::Semantic(SemanticError::UndefinedVariable {
            name: "y".to_owned(),
            scope_id: 1
        }))
    );
    assert_eq!(
        compile("int main() { int x; int x; }"),
        Err(CompileError::Semantic(SemanticError::Symbols(
            SymbolTableError::DuplicateVariable { name: "x".to_owned(), scope_id: 1 }
        )))
    );
    assert_eq!(
        compile("int main() { int x = 1; if (x) { } }"),
        Err(CompileError::Lowering(LoweringError::NotImplemented))
    );
    assert_eq!(
        compile("int main() { int a = 1; int b = 2; int c = 3; int d = 4; int e = 5; int f = 6; }"),
        Err(CompileError::Codegen(CodegenError::UnmappedVariable("v6".to_owned())))
    );
}

#[test]
fn error_messages_name_what_went_wrong() {
    assert_eq!(
        TokenizeError::UnexpectedCharacter { position: 10, character: '#' }.message(),
        "Tokenization error at position 10 character #"
    );
    assert_eq!(
        TokenizeError::UnterminatedString { position: 4 }.message(),
        "Tokenization error at position 4: string literal without closing quote"
    );
    assert_eq!(
        SymbolTableError::DuplicateVariable { name: "x".to_owned(), scope_id: 12 }.message(),
        "Duplicate insertion of variable x into scope 12."
    );
    assert_eq!(
        SemanticError::UndefinedVariable { name: "z".to_owned(), scope_id: 1 }.message(),
        "Undefined variable z in scope 1"
    );
    assert_eq!(
        SemanticError::Symbols(SymbolTableError::DuplicateVariable {
            name: "y".to_owned(),
            scope_id: 3
        })
        .message(),
        "Duplicate insertion of variable y into scope 3."
    );
    assert_eq!(LoweringError::NotImplemented.message(), "Not Implemented");
    assert_eq!(LoweringError::ExpectedIntLiteral.message(), "Expected an IntLiteral");
    assert_eq!(LoweringError::ExpectedVarDeclare.message(), "Expected a VarDeclare");
    assert_eq!(LoweringError::UnsupportedReturn.message(), "Unsupported return value");
    assert_eq!(LoweringError::UnboundVariable("x".to_owned()).message(), "Unbound variable x");
    assert_eq!(
        CodegenError::UnmappedVariable("v6".to_owned()).message(),
        "Could not map var v6"
    );
    assert_eq!(CodegenError::UnsupportedStatement.message(), "Unsupported statement");
}

#[test]
fn parse_error_messages_name_token_and_position() {
    assert_eq!(
        ParseError::Expected { expected: Token::Semicolon, found: Some(Token::CloseBrace) }
            .message(),
        "Expected ;, but got }"
    );
    assert_eq!(
        ParseError::Expected { expected: Token::Operator("="), found: None }.message(),
        "Expected =, but got nothing."
    );
    assert_eq!(
        ParseError::UnexpectedToken { found: Some(Token::IntegerLiteral(42)), position: 7 }
            .message(),
        "Error parsing token 42 at position 7"
    );
    assert_eq!(
        ParseError::UnexpectedToken { found: None, position: 3 }.message(),
        "Error parsing token nothing at position 3"
    );
    assert_eq!(
        ParseError::BadVariableName { token: Token::StringLiteral("s"), position: 2 }.message(),
        "Error parsing variable name from token \"s\" at position 2"
    );
    assert_eq!(ParseError::EndOfInput.message(), "End of input.");
    assert_eq!(Token::OpenParen.text(), "(");
    assert_eq!(Token::CloseParen.text(), ")");
    assert_eq!(Token::OpenBrace.text(), "{");
    assert_eq!(Token::Identifier("name").text(), "name");
}

#[test]
fn compile_error_message_is_that_of_the_stage() {
    assert_eq!(
        compile("int main() { return y; }").unwrap_err().message(),
        "Undefined variable y in scope 1"
    );
    assert_eq!(
        compile("int main() { return 1 }").unwrap_err().message(),
        "Expected ;, but got }"
    );
    assert_eq!(
        compile("main").unwrap_err().message(),
        "Expected a program of the form int main() { ... }"
    );
    assert_eq!(
        compile("int main() { int x = 1; x = 2; }").unwrap_err().message(),
        "Not Implemented"
    );
    assert_eq!(compile("int main() { @ }").unwrap_err().message(), "Tokenization error at position 13 character @");
}

#[test]
fn compile_tokens_takes_the_program_as_tokens() {
    let tokens = vec![
        Token::Keyword("int"),
        Token::Identifier("main"),
        Token::OpenParen,
        Token::CloseParen,
        Token::OpenBrace,
        Token::Keyword("return"),
        Token::IntegerLiteral(7),
        Token::Semicolon,
        Token::CloseBrace,
    ];
    assert_eq!(
        compile_tokens(&tokens).unwrap(),
        vec![".global main", "main:", "mov $7, %rbx", "mov %rbx, %rax"]
    );
    assert_eq!(compile_tokens(&tokens[..8].to_vec()), Err(CompileError::NotMain));
    assert_eq!(compile_tokens(&vec![]), Err(CompileError::NotMain));
}

#[test]
fn compile_uninitialized_declaration_emits_no_move() {
    assert_eq!(
        compile("int main() { int x; return x; }").unwrap(),
        vec![".global main", "main:", "mov %rbx, %rax"]
    );
    assert_eq!(
        compile("int main() { return 0; } }"),
        Err(CompileError::Parse(ParseError::UnexpectedToken {
            found: Some(Token::CloseBrace),
            position: 5
        }))
    );
}
