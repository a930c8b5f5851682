use minicc::ast::{Declaration, Expr, Scope, Statement, Type, VarInfo};
use minicc::parser::parse;
use minicc::symantic_check::{check_scope, check_scope_expr, check_syntax, SemanticError};
use minicc::symbol_table::{SymbolTable, SymbolTableError};
use minicc::tokenizer::tokenize;

fn declare(name: &str, var_type: Type) -> Statement {
    Statement::VarDeclare { name: name.to_owned(), var_type, value: None }
}

fn info(name: &str, var_type: Type) -> VarInfo {
    VarInfo { name: name.to_owned(), var_type }
}

fn program(text: &str) -> Vec<Declaration> {
    let tokens = tokenize(text).unwrap();
    parse(&tokens).unwrap()
}

#[test]
fn test_st() {
    let scope = Scope {
        id: 1,
        statements: vec![
            Statement::VarDeclare { name: "x".to_owned(), var_type: Type::Int, value: None },
            Statement::If {
                condition: Expr::IntLiteral(1),
                true_block: Scope {
                    id: 2,
                    statements: vec![Statement::VarDeclare {
                        name: "x".to_owned(),
                        var_type: Type::UserDefined("MyType".to_owned()),
                        value: None,
                    }],
                },
                false_block: Some(Scope {
                    id: 3,
                    statements: vec![Statement::VarDeclare {
                        name: "y".to_owned(),
                        var_type: Type::Int,
                        value: None,
                    }],
                }),
            },
        ],
    };
    let st = SymbolTable::from_scope(&scope).unwrap();
    assert_eq!(st.get(1, "x"), Some(&VarInfo { name: "x".to_owned(), var_type: Type::Int }));
    assert_eq!(
        st.get(2, "x"),
        Some(&VarInfo { name: "x".to_owned(), var_type: Type::UserDefined("MyType".to_owned()) })
    );
    assert_eq!(st.get(3, "x"), Some(&VarInfo { name: "x".to_owned(), var_type: Type::Int }));
    assert_eq!(st.get(3, "y"), Some(&VarInfo { name: "y".to_owned(), var_type: Type::Int }));
    assert_eq!(st.get(2, "y"), None);
}

#[test]
fn symbol_table_inner_declaration_is_not_visible_outside() {
    let scope = Scope {
        id: 2,
        statements: vec![Statement::If {
            condition: Expr::IntLiteral(1),
            true_block: Scope { id: 1, statements: vec![declare("inner", Type::Int)] },
            false_block: None,
        }],
    };
    let st = SymbolTable::from_scope(&scope).unwrap();
    assert_eq!(st.get(1, "inner"), Some(&info("inner", Type::Int)));
    assert_eq!(st.get(2, "inner"), None);
}

#[test]
fn symbol_table_resolves_through_several_levels() {
    let scope = Scope {
        id: 4,
        statements: vec![
            declare("a", Type::Char),
            Statement::If {
                condition: Expr::IntLiteral(1),
                true_block: Scope {
                    id: 3,
                    statements: vec![Statement::If {
                        condition: Expr::IntLiteral(1),
                        true_block: Scope {
                            id: 2,
                            statements: vec![Statement::If {
                                condition: Expr::IntLiteral(1),
                                true_block: Scope { id: 1, statements: vec![] },
                                false_block: None,
                            }],
                        },
                        false_block: None,
                    }],
                },
                false_block: None,
            },
        ],
    };
    let st = SymbolTable::from_scope(&scope).unwrap();
    assert_eq!(st.get(1, "a"), Some(&info("a", Type::Char)));
    assert_eq!(st.get(1, "b"), None);
    assert_eq!(st.get(9, "a"), None);
}

#[test]
fn symbol_table_rejects_duplicate_in_same_scope() {
    let scope =
        Scope { id: 1, statements: vec![declare("x", Type::Int), declare("x", Type::Char)] };
    assert_eq!(
        SymbolTable::from_scope(&scope).err(),
        Some(SymbolTableError::DuplicateVariable { name: "x".to_owned(), scope_id: 1 })
    );
}

#[test]
fn symbol_table_rejects_duplicate_in_nested_scope() {
    let scope = Scope {
        id: 2,
        statements: vec![Statement::If {
            condition: Expr::IntLiteral(1),
            true_block: Scope {
                id: 1,
                statements: vec![declare("y", Type::Int), declare("y", Type::Int)],
            },
            false_block: None,
        }],
    };
    assert_eq!(
        SymbolTable::from_scope(&scope).err(),
        Some(SymbolTableError::DuplicateVariable { name: "y".to_owned(), scope_id: 1 })
    );
}

#[test]
fn symbol_table_allows_shadowing_across_scopes() {
    // `char` is no keyword of the lexer, so it names a user type here.
    let decls = program("int main() { int x; if (x) { char x; } else { MyType x; } }");
    let st = SymbolTable::from_function(&decls[0]).unwrap();
    assert_eq!(st.get(3, "x"), Some(&info("x", Type::Int)));
    assert_eq!(st.get(2, "x"), Some(&info("x", Type::UserDefined("char".to_owned()))));
    assert_eq!(st.get(1, "x"), Some(&info("x", Type::UserDefined("MyType".to_owned()))));
}

#[test]
fn symbol_table_insert_and_merge() {
    let mut table = SymbolTable::new();
    assert_eq!(table.insert(1, "x", info("x", Type::Int)), Ok(()));
    assert_eq!(
        table.insert(1, "x", info("x", Type::Char)),
        Err(SymbolTableError::DuplicateVariable { name: "x".to_owned(), scope_id: 1 })
    );
    assert_eq!(table.insert(2, "x", info("x", Type::Char)), Ok(()));
    let mut other = SymbolTable::new();
    assert_eq!(other.insert(1, "x", info("x", Type::Void)), Ok(()));
    assert_eq!(other.insert(3, "z", info("z", Type::Int)), Ok(()));
    table.merge(other);
    assert_eq!(table.get(1, "x"), Some(&info("x", Type::Void)));
    assert_eq!(table.get(2, "x"), Some(&info("x", Type::Char)));
    assert_eq!(table.get(3, "z"), Some(&info("z", Type::Int)));
    assert_eq!(table.get(3, "x"), None);
}

#[test]
fn symbol_table_add_child_scope_links_child_to_parent() {
    let mut table = SymbolTable::new();
    table.insert(7, "outer", info("outer", Type::Int)).unwrap();
    let child = Scope { id: 5, statements: vec![declare("inner", Type::Int)] };
    assert_eq!(table.add_child_scope(7, &child), Ok(()));
    assert_eq!(table.get(5, "outer"), Some(&info("outer", Type::Int)));
    assert_eq!(table.get(5, "inner"), Some(&info("inner", Type::Int)));
    assert_eq!(table.get(7, "inner"), None);
}

#[test]
fn test_symantic_main() {
    let s = "int main() {\n    int x = 1;\n    int y = x;\n    if (x == y) { return y; }\n    return x;\n}\n";
    let tokens = tokenize(s).unwrap();
    let syntax_tree = parse(&tokens).unwrap();
    assert_eq!(1, syntax_tree.len());

    let symbol_table = check_syntax(&syntax_tree).unwrap();
    assert_eq!(symbol_table.get(1, "y"), Some(&info("y", Type::Int)));
}

#[test]
fn test_symantic_main_undef_var() {
    let s = "int main() {\n    int x;\n    int y = z;\n}\n";
    let tokens = tokenize(s).unwrap();
    let syntax_tree = parse(&tokens).unwrap();
    assert_eq!(syntax_tree.len(), 1);

    assert_eq!(
        check_syntax(&syntax_tree).map_err(|e| e.message()).err(),
        Some("Undefined variable z in scope 1".to_owned())
    );
    assert_eq!(
        check_syntax(&syntax_tree).err(),
        Some(SemanticError::UndefinedVariable { name: "z".to_owned(), scope_id: 1 })
    );
}

#[test]
fn semantic_check_finds_undefined_variable_in_condition() {
    let decls = program("int main() { if (missing) { return 1; } return 0; }");
    assert_eq!(
        check_syntax(&decls).err(),
        Some(SemanticError::UndefinedVariable { name: "missing".to_owned(), scope_id: 2 })
    );
}

#[test]
fn semantic_check_finds_undefined_variable_in_branch() {
    let decls = program("int main() { int x; if (x) { return x; } else { return q + x; } }");
    assert_eq!(
        check_syntax(&decls).err(),
        Some(SemanticError::UndefinedVariable { name: "q".to_owned(), scope_id: 1 })
    );
}

#[test]
fn semantic_check_reports_first_undefined_variable() {
    let decls = program("int main() { a = b + c; }");
    assert_eq!(
        check_syntax(&decls).err(),
        Some(SemanticError::UndefinedVariable { name: "a".to_owned(), scope_id: 1 })
    );
}

#[test]
fn semantic_check_branch_variable_is_not_visible_after_the_branch() {
    let decls = program("int main() { if (1) { int inner = 1; } return inner; }");
    assert_eq!(
        check_syntax(&decls).err(),
        Some(SemanticError::UndefinedVariable { name: "inner".to_owned(), scope_id: 2 })
    );
}

#[test]
fn semantic_check_reports_duplicates_before_undefined_variables() {
    let decls = program("int main() { return z; int x; int x; }");
    assert_eq!(
        check_syntax(&decls).err(),
        Some(SemanticError::Symbols(SymbolTableError::DuplicateVariable {
            name: "x".to_owned(),
            scope_id: 1
        }))
    );
}

#[test]
fn check_scope_expr_walks_both_operands() {
    let scope = Scope { id: 1, statements: vec![declare("x", Type::Int)] };
    let table = SymbolTable::from_scope(&scope).unwrap();
    let sum = |left: &str, right: &str| Expr::BinaryOperation {
        op: minicc::ast::BinOp::Add,
        left: Box::new(Expr::Variable(left.to_owned())),
        right: Box::new(Expr::Variable(right.to_owned())),
    };
    assert_eq!(check_scope_expr(&sum("x", "x"), 1, &table), Ok(()));
    assert_eq!(
        check_scope_expr(&sum("x", "y"), 1, &table),
        Err(SemanticError::UndefinedVariable { name: "y".to_owned(), scope_id: 1 })
    );
    assert_eq!(check_scope_expr(&Expr::IntLiteral(3), 1, &table), Ok(()));
    assert_eq!(check_scope_expr(&Expr::StringLiteral("y".to_owned()), 1, &table), Ok(()));
    assert_eq!(check_scope(&scope, &table), Ok(()));
}
