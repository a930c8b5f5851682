//! The semantic check: every variable that an expression names must be
//! declared in the scope of the expression or in a scope around it.

use crate::ast::{
    lemma_statements_view_index, statement_view, Declaration, DeclarationView, Expr, ExprView,
    Scope, ScopeView, Statement, StatementView,
};
use crate::symbol_table::{
    lookup, symbol_error_text, table_of, SymbolTable, SymbolTableError, SymbolTableErrorView,
    SymbolTableView,
};
use crate::text::{decimal, decimal_string};
use vstd::prelude::*;
use vstd::string::*;

verus! {

/// Why a program is not well formed.
#[derive(Debug, PartialEq)]
pub enum SemanticError {
    /// The symbol table could not be built.
    Symbols(SymbolTableError),
    /// An expression of the scope `scope_id` names `name`, which neither that
    /// scope nor any scope around it declares.
    UndefinedVariable { name: String, scope_id: u32 },
}

/// The value of a [`SemanticError`].
pub enum SemanticErrorView {
    Symbols(SymbolTableErrorView),
    UndefinedVariable { name: Seq<char>, scope_id: u32 },
}

impl View for SemanticError {
    type V = SemanticErrorView;

    open spec fn view(&self) -> SemanticErrorView {
        match self {
            SemanticError::Symbols(e) => SemanticErrorView::Symbols(e@),
            SemanticError::UndefinedVariable { name, scope_id } => {
                SemanticErrorView::UndefinedVariable { name: name@, scope_id: *scope_id }
            },
        }
    }
}

/// The text of a [`SemanticError`].
pub open spec fn semantic_error_text(error: SemanticErrorView) -> Seq<char> {
    match error {
        SemanticErrorView::Symbols(e) => symbol_error_text(e),
        SemanticErrorView::UndefinedVariable { name, scope_id } => {
            "Undefined variable "@ + name + " in scope "@ + decimal(scope_id as nat)
        },
    }
}

impl SemanticError {
    /// The error in words, with the variable and the scope it names.
    pub fn message(&self) -> (text: String)
        ensures
            text@ == semantic_error_text(self@),
    {
        match self {
            SemanticError::Symbols(e) => e.message(),
            SemanticError::UndefinedVariable { name, scope_id } => {
                let mut text = String::from_str("Undefined variable ");
                text.append(name.as_str());
                text.append(" in scope ");
                text.append(decimal_string(*scope_id as u64).as_str());
                text
            },
        }
    }
}

/// The first variable, from left to right, that `expr` names and that is not
/// visible from the scope `scope_id`.
pub open spec fn undefined_in_expr(expr: ExprView, scope_id: u32, table: SymbolTableView) -> Option<
    Seq<char>,
>
    decreases expr,
{
    match expr {
        ExprView::BinaryOperation { op, left, right } => match undefined_in_expr(
            *left,
            scope_id,
            table,
        ) {
            Some(name) => Some(name),
            None => undefined_in_expr(*right, scope_id, table),
        },
        ExprView::Variable(name) => if lookup(table, scope_id, name) is None {
            Some(name)
        } else {
            None
        },
        _ => None,
    }
}

/// The first undefined variable of an expression that may be absent.
pub open spec fn undefined_in_option(
    expr: Option<ExprView>,
    scope_id: u32,
    table: SymbolTableView,
) -> Option<Seq<char>> {
    match expr {
        Some(e) => undefined_in_expr(e, scope_id, table),
        None => None,
    }
}

/// The error of naming `name` in the scope `scope_id`, if there is a name.
pub open spec fn undefined(name: Option<Seq<char>>, scope_id: u32) -> Option<SemanticErrorView> {
    match name {
        Some(name) => Some(SemanticErrorView::UndefinedVariable { name, scope_id }),
        None => None,
    }
}

/// `first` if it is an error, else `second`.
pub open spec fn or_else(first: Option<SemanticErrorView>, second: Option<SemanticErrorView>) -> Option<
    SemanticErrorView,
> {
    match first {
        Some(e) => Some(e),
        None => second,
    }
}

/// The first undefined variable met in `scope`, with the scope that names
/// it, when the statements are walked in order and the branches of an `if`
/// statement after its condition.
#[verifier::opaque]
pub open spec fn scope_error(scope: ScopeView, table: SymbolTableView) -> Option<SemanticErrorView>
    decreases scope,
{
    statements_error(scope.statements, scope.id, table)
}

/// The first undefined variable met in the statements of the scope
/// `scope_id`.
#[verifier::opaque]
pub open spec fn statements_error(
    statements: Seq<StatementView>,
    scope_id: u32,
    table: SymbolTableView,
) -> Option<SemanticErrorView>
    decreases statements,
{
    if statements.len() == 0 {
        None
    } else {
        or_else(
            statements_error(statements.drop_last(), scope_id, table),
            statement_error(statements.last(), scope_id, table),
        )
    }
}

/// The first undefined variable met in one statement of the scope
/// `scope_id`.
#[verifier::opaque]
pub open spec fn statement_error(
    statement: StatementView,
    scope_id: u32,
    table: SymbolTableView,
) -> Option<SemanticErrorView>
    decreases statement,
{
    match statement {
        StatementView::Return(e) => undefined(undefined_in_expr(e, scope_id, table), scope_id),
        StatementView::Expression(e) => undefined(undefined_in_expr(e, scope_id, table), scope_id),
        StatementView::VarDeclare { name, var_type, value } => undefined(
            undefined_in_option(value, scope_id, table),
            scope_id,
        ),
        StatementView::If { condition, true_block, false_block } => or_else(
            undefined(undefined_in_expr(condition, scope_id, table), scope_id),
            or_else(
                scope_error(true_block, table),
                match false_block {
                    Some(block) => scope_error(block, table),
                    None => None,
                },
            ),
        ),
    }
}

/// The symbol table of the function `declaration`, if no scope declares a
/// name twice and every variable named is visible where it is named; else
/// the first of these errors, duplicates first.
pub open spec fn checked(declaration: DeclarationView) -> Result<SymbolTableView, SemanticErrorView> {
    match table_of(declaration->scope) {
        Err(e) => Err(SemanticErrorView::Symbols(e)),
        Ok(table) => match scope_error(declaration->scope, table) {
            Some(e) => Err(e),
            None => Ok(table),
        },
    }
}

/// True when `result` tells what `expected` says.
pub open spec fn tells(result: Result<(), SemanticError>, expected: Option<SemanticErrorView>) -> bool {
    match result {
        Ok(()) => expected is None,
        Err(e) => expected == Some(e@),
    }
}

/// Checks that every variable named in `expr` is visible from the scope
/// `scope_id`. The first that is not, from left to right, is the error.
pub fn check_scope_expr(expr: &Expr, scope_id: u32, symbol_table: &SymbolTable) -> (result: Result<
    (),
    SemanticError,
>)
    ensures
        tells(result, undefined(undefined_in_expr(expr@, scope_id, symbol_table@), scope_id)),
    decreases expr,
{
    match expr {
        Expr::BinaryOperation { op, left, right } => {
            check_scope_expr(left, scope_id, symbol_table)?;
            check_scope_expr(right, scope_id, symbol_table)?;
            Ok(())
        },
        Expr::Variable(var_name) => {
            if symbol_table.get(scope_id, var_name.as_str()).is_none() {
                return Err(SemanticError::UndefinedVariable { name: var_name.clone(), scope_id });
            }
            Ok(())
        },
        _ => Ok(()),
    }
}

/// Checks the statements of `scope` in order, and the scopes nested in it
/// where they stand. The first variable that is not visible where it is
/// named is the error.
pub fn check_scope(scope: &Scope, symbol_table: &SymbolTable) -> (result: Result<(), SemanticError>)
    ensures
        tells(result, scope_error(scope@, symbol_table@)),
    decreases scope,
{
    let ghost statements = scope@.statements;
    let ghost table = symbol_table@;
    let n = scope.statements.len();
    let mut i: usize = 0;
    proof {
        assert(statements_error(statements.take(0), scope.id, table) is None) by {
            reveal(statements_error);
        }
    }
    while i < n
        invariant
            i <= n == scope.statements.len(),
            statements == scope@.statements,
            table == symbol_table@,
            statements.len() == n,
            statements_error(statements.take(i as int), scope.id, table) is None,
        decreases n - i,
    {
        let ghost prefix = statements.take(i + 1);
        proof {
            lemma_statements_view_index(scope.statements@, i as int);
            assert(prefix.drop_last() =~= statements.take(i as int));
            assert(statements_error(prefix, scope.id, table) == statement_error(
                scope.statements[i as int]@,
                scope.id,
                table,
            )) by {
                reveal(statements_error);
                reveal(statement_error);
            }
        }
        let step = check_statement(&scope.statements[i], scope.id, symbol_table);
        match step {
            Ok(()) => {},
            Err(e) => {
                proof {
                    lemma_statements_error_stays(statements, scope.id, table, i + 1);
                    assert(scope_error(scope@, table) == Some(e@)) by {
                        reveal(scope_error);
                        reveal(statements_error);
                    }
                }
                return Err(e);
            },
        }
        i += 1;
    }
    proof {
        assert(statements.take(n as int) =~= statements);
        assert(scope_error(scope@, table) is None) by {
            reveal(scope_error);
            reveal(statements_error);
        }
    }
    Ok(())
}

/// Checks one statement of the scope `scope_id`: its expression, and for an
/// `if` statement its condition and then its branches.
fn check_statement(statement: &Statement, scope_id: u32, symbol_table: &SymbolTable) -> (result:
    Result<(), SemanticError>)
    ensures
        tells(result, statement_error(statement@, scope_id, symbol_table@)),
    decreases statement,
{
    let ghost table = symbol_table@;
    match statement {
        Statement::Return(expr) => {
            assert(statement_error(statement@, scope_id, table) == undefined(
                undefined_in_expr(expr@, scope_id, table),
                scope_id,
            )) by {
                reveal(statement_error);
                reveal(statement_view);
            }
            check_scope_expr(expr, scope_id, symbol_table)
        },
        Statement::Expression(expr) => {
            assert(statement_error(statement@, scope_id, table) == undefined(
                undefined_in_expr(expr@, scope_id, table),
                scope_id,
            )) by {
                reveal(statement_error);
                reveal(statement_view);
            }
            check_scope_expr(expr, scope_id, symbol_table)
        },
        Statement::VarDeclare { value, .. } => {
            assert(statement_error(statement@, scope_id, table) == undefined(
                undefined_in_option(
                    match value {
                        Some(e) => Some(e@),
                        None => None,
                    },
                    scope_id,
                    table,
                ),
                scope_id,
            )) by {
                reveal(statement_error);
                reveal(statement_view);
            }
            match value {
                Some(expr) => check_scope_expr(expr, scope_id, symbol_table),
                None => Ok(()),
            }
        },
        Statement::If { condition, true_block, false_block } => {
            assert(statement_error(statement@, scope_id, table) == or_else(
                undefined(undefined_in_expr(condition@, scope_id, table), scope_id),
                or_else(
                    scope_error(true_block@, table),
                    match false_block {
                        Some(block) => scope_error(block@, table),
                        None => None,
                    },
                ),
            )) by {
                reveal(statement_error);
                reveal(scope_error);
                reveal(statement_view);
            }
            check_scope_expr(condition, scope_id, symbol_table)?;
            check_scope(true_block, symbol_table)?;
            if let Some(false_scope) = false_block {
                check_scope(false_scope, symbol_table)?;
            }
            Ok(())
        },
    }
}

/// Builds the symbol table of the program and checks every variable named
/// in it. The program is one function.
pub fn check_syntax(declarations: &Vec<Declaration>) -> (result: Result<SymbolTable, SemanticError>)
    requires
        declarations@.len() == 1,
    ensures
        match result {
            Ok(table) => checked(declarations@[0]@) == Ok::<SymbolTableView, SemanticErrorView>(
                table@,
            ),
            Err(e) => checked(declarations@[0]@) == Err::<SymbolTableView, SemanticErrorView>(e@),
        },
{
    let symbol_table = match SymbolTable::from_function(&declarations[0]) {
        Ok(table) => table,
        Err(e) => {
            return Err(SemanticError::Symbols(e));
        },
    };
    match &declarations[0] {
        Declaration::Function { scope, .. } => {
            check_scope(scope, &symbol_table)?;
        },
    }
    Ok(symbol_table)
}

/// Once a prefix of the statements holds an error, it is the error of every
/// longer prefix.
proof fn lemma_statements_error_stays(
    statements: Seq<StatementView>,
    scope_id: u32,
    table: SymbolTableView,
    k: int,
)
    requires
        0 <= k <= statements.len(),
        statements_error(statements.take(k), scope_id, table) is Some,
    ensures
        statements_error(statements, scope_id, table) == statements_error(
            statements.take(k),
            scope_id,
            table,
        ),
    decreases statements.len() - k,
{
    if k == statements.len() {
        assert(statements.take(k) =~= statements);
    } else {
        assert(statements.take(k + 1).drop_last() =~= statements.take(k));
        assert(statements_error(statements.take(k + 1), scope_id, table) == statements_error(
            statements.take(k),
            scope_id,
            table,
        )) by {
            reveal(statements_error);
        }
        lemma_statements_error_stays(statements, scope_id, table, k + 1);
    }
}

/// The variables that `expr` names.
pub open spec fn names_in_expr(expr: ExprView) -> Set<Seq<char>>
    decreases expr,
{
    match expr {
        ExprView::BinaryOperation { op, left, right } => names_in_expr(*left).union(
            names_in_expr(*right),
        ),
        ExprView::Variable(name) => set![name],
        _ => Set::empty(),
    }
}

/// The references of `scope` and of the scopes nested in it: each variable
/// named in an expression, with the identifier of the scope whose statement
/// names it. The condition of an `if` statement belongs to the scope of the
/// statement, not to its branches.
pub open spec fn references_of_scope(scope: ScopeView) -> Set<(u32, Seq<char>)>
    decreases scope,
{
    references_in_statements(scope.statements, scope.id)
}

/// The references of the statements of the scope `scope_id`.
pub open spec fn references_in_statements(statements: Seq<StatementView>, scope_id: u32) -> Set<
    (u32, Seq<char>),
>
    decreases statements,
{
    if statements.len() == 0 {
        Set::empty()
    } else {
        references_in_statements(statements.drop_last(), scope_id).union(
            references_in_statement(statements.last(), scope_id),
        )
    }
}

/// The names of `names`, each with the scope `scope_id`.
pub open spec fn named_in(names: Set<Seq<char>>, scope_id: u32) -> Set<(u32, Seq<char>)> {
    Set::new(|reference: (u32, Seq<char>)| reference.0 == scope_id && names.contains(reference.1))
}

/// The references of one statement of the scope `scope_id`.
pub open spec fn references_in_statement(statement: StatementView, scope_id: u32) -> Set<
    (u32, Seq<char>),
>
    decreases statement,
{
    match statement {
        StatementView::Return(e) => named_in(names_in_expr(e), scope_id),
        StatementView::Expression(e) => named_in(names_in_expr(e), scope_id),
        StatementView::VarDeclare { name, var_type, value } => match value {
            Some(e) => named_in(names_in_expr(e), scope_id),
            None => Set::empty(),
        },
        StatementView::If { condition, true_block, false_block } => named_in(
            names_in_expr(condition),
            scope_id,
        ).union(references_of_scope(true_block)).union(
            match false_block {
                Some(block) => references_of_scope(block),
                None => Set::empty(),
            },
        ),
    }
}

/// True when `error` is what the references `references` call for: no error
/// if every reference is visible, else an undefined variable that is one of
/// the references and is not visible.
pub open spec fn is_failure_of(
    error: Option<SemanticErrorView>,
    references: Set<(u32, Seq<char>)>,
    table: SymbolTableView,
) -> bool {
    match error {
        None => forall|id: u32, name: Seq<char>| #[trigger]
            references.contains((id, name)) ==> lookup(table, id, name) is Some,
        Some(SemanticErrorView::UndefinedVariable { name, scope_id }) => references.contains(
            (scope_id, name),
        ) && lookup(table, scope_id, name) is None,
        Some(_) => false,
    }
}

/// An expression has an undefined variable exactly when one of the
/// variables it names is not visible, and the variable reported is such a
/// one.
pub proof fn lemma_undefined_in_expr(expr: ExprView, scope_id: u32, table: SymbolTableView)
    ensures
        is_failure_of(
            undefined(undefined_in_expr(expr, scope_id, table), scope_id),
            named_in(names_in_expr(expr), scope_id),
            table,
        ),
    decreases expr,
{
    match expr {
        ExprView::BinaryOperation { op, left, right } => {
            lemma_undefined_in_expr(*left, scope_id, table);
            lemma_undefined_in_expr(*right, scope_id, table);
            let all = named_in(names_in_expr(expr), scope_id);
            let first = named_in(names_in_expr(*left), scope_id);
            let second = named_in(names_in_expr(*right), scope_id);
            assert forall|id: u32, name: Seq<char>|
                all.contains((id, name)) == (first.contains((id, name)) || second.contains(
                    (id, name),
                )) by {}
        },
        _ => {},
    }
}

/// Undefined-variable detection. The semantic check of a scope fails
/// exactly when some expression, anywhere in the scope or in a scope nested
/// in it, names a variable that is not visible from the scope of the
/// expression; and the error names such a variable with that scope.
pub proof fn lemma_scope_error(scope: ScopeView, table: SymbolTableView)
    ensures
        is_failure_of(scope_error(scope, table), references_of_scope(scope), table),
    decreases scope, 1nat,
{
    reveal(scope_error);
    reveal(statements_error);
    lemma_statements_error(scope.statements, scope.id, table);
}

/// What [`lemma_scope_error`] says, of a sequence of statements.
pub proof fn lemma_statements_error(
    statements: Seq<StatementView>,
    scope_id: u32,
    table: SymbolTableView,
)
    ensures
        is_failure_of(
            statements_error(statements, scope_id, table),
            references_in_statements(statements, scope_id),
            table,
        ),
    decreases statements, 0nat,
{
    reveal(statements_error);
    reveal(statement_error);
    if statements.len() > 0 {
        lemma_statements_error(statements.drop_last(), scope_id, table);
        lemma_statement_error(statements.last(), scope_id, table);
        let all = references_in_statements(statements, scope_id);
        let before = references_in_statements(statements.drop_last(), scope_id);
        let last = references_in_statement(statements.last(), scope_id);
        assert forall|id: u32, name: Seq<char>|
            all.contains((id, name)) == (before.contains((id, name)) || last.contains(
                (id, name),
            )) by {}
    }
}

/// What [`lemma_scope_error`] says, of one statement.
pub proof fn lemma_statement_error(statement: StatementView, scope_id: u32, table: SymbolTableView)
    ensures
        is_failure_of(
            statement_error(statement, scope_id, table),
            references_in_statement(statement, scope_id),
            table,
        ),
    decreases statement, 0nat,
{
    reveal(statement_error);
    reveal(scope_error);
    match statement {
        StatementView::Return(e) => {
            lemma_undefined_in_expr(e, scope_id, table);
        },
        StatementView::Expression(e) => {
            lemma_undefined_in_expr(e, scope_id, table);
        },
        StatementView::VarDeclare { name, var_type, value } => {
            match value {
                Some(e) => {
                    lemma_undefined_in_expr(e, scope_id, table);
                },
                None => {},
            }
        },
        StatementView::If { condition, true_block, false_block } => {
            lemma_undefined_in_expr(condition, scope_id, table);
            lemma_scope_error(true_block, table);
            match false_block {
                Some(block) => {
                    lemma_scope_error(block, table);
                },
                None => {},
            }
            let all = references_in_statement(statement, scope_id);
            let first = named_in(names_in_expr(condition), scope_id);
            let second = references_of_scope(true_block);
            let third = match false_block {
                Some(block) => references_of_scope(block),
                None => Set::empty(),
            };
            assert forall|id: u32, name: Seq<char>|
                all.contains((id, name)) == (first.contains((id, name)) || second.contains(
                    (id, name),
                ) || third.contains((id, name))) by {}
        },
    }
}

/// The variables that `expr` names, from left to right, each as often as it
/// is named.
pub open spec fn names_in_order(expr: ExprView) -> Seq<Seq<char>>
    decreases expr,
{
    match expr {
        ExprView::BinaryOperation { op, left, right } => names_in_order(*left) + names_in_order(
            *right,
        ),
        ExprView::Variable(name) => seq![name],
        _ => Seq::empty(),
    }
}

/// The names `names`, each with the scope `scope_id`, in the same order.
pub open spec fn named_in_order(names: Seq<Seq<char>>, scope_id: u32) -> Seq<(u32, Seq<char>)> {
    names.map_values(|name: Seq<char>| (scope_id, name))
}

/// The references of `scope` and of the scopes nested in it, in the order
/// in which the statements stand: within a statement from left to right,
/// and for an `if` statement its condition, then its first branch, then its
/// second.
pub open spec fn references_in_order(scope: ScopeView) -> Seq<(u32, Seq<char>)>
    decreases scope,
{
    statements_references(scope.statements, scope.id)
}

/// The references of the statements of the scope `scope_id`, in order.
pub open spec fn statements_references(statements: Seq<StatementView>, scope_id: u32) -> Seq<
    (u32, Seq<char>),
>
    decreases statements,
{
    if statements.len() == 0 {
        Seq::empty()
    } else {
        statements_references(statements.drop_last(), scope_id) + statement_references(
            statements.last(),
            scope_id,
        )
    }
}

/// The references of one statement of the scope `scope_id`, in order.
pub open spec fn statement_references(statement: StatementView, scope_id: u32) -> Seq<
    (u32, Seq<char>),
>
    decreases statement,
{
    match statement {
        StatementView::Return(e) => named_in_order(names_in_order(e), scope_id),
        StatementView::Expression(e) => named_in_order(names_in_order(e), scope_id),
        StatementView::VarDeclare { name, var_type, value } => match value {
            Some(e) => named_in_order(names_in_order(e), scope_id),
            None => Seq::empty(),
        },
        StatementView::If { condition, true_block, false_block } => named_in_order(
            names_in_order(condition),
            scope_id,
        ) + references_in_order(true_block) + match false_block {
            Some(block) => references_in_order(block),
            None => Seq::empty(),
        },
    }
}

/// The first of the references `references` that is not visible, as an
/// error; none if all are visible.
pub open spec fn first_unresolved(
    references: Seq<(u32, Seq<char>)>,
    table: SymbolTableView,
) -> Option<SemanticErrorView>
    decreases references.len(),
{
    if references.len() == 0 {
        None
    } else if lookup(table, references[0].0, references[0].1) is None {
        Some(
            SemanticErrorView::UndefinedVariable {
                name: references[0].1,
                scope_id: references[0].0,
            },
        )
    } else {
        first_unresolved(references.drop_first(), table)
    }
}

/// The first unresolved reference of two sequences in a row is that of the
/// first sequence if it has one, else that of the second.
pub proof fn lemma_first_unresolved_of_both(
    a: Seq<(u32, Seq<char>)>,
    b: Seq<(u32, Seq<char>)>,
    table: SymbolTableView,
)
    ensures
        first_unresolved(a + b, table) == or_else(
            first_unresolved(a, table),
            first_unresolved(b, table),
        ),
    decreases a.len(),
{
    if a.len() == 0 {
        assert(a + b =~= b);
    } else {
        assert((a + b)[0] == a[0]);
        assert((a + b).drop_first() =~= a.drop_first() + b);
        lemma_first_unresolved_of_both(a.drop_first(), b, table);
    }
}

/// The undefined variable of an expression is the first of the variables
/// it names, from left to right, that is not visible.
pub proof fn lemma_undefined_is_first_in_expr(
    expr: ExprView,
    scope_id: u32,
    table: SymbolTableView,
)
    ensures
        undefined(undefined_in_expr(expr, scope_id, table), scope_id) == first_unresolved(
            named_in_order(names_in_order(expr), scope_id),
            table,
        ),
    decreases expr,
{
    match expr {
        ExprView::BinaryOperation { op, left, right } => {
            lemma_undefined_is_first_in_expr(*left, scope_id, table);
            lemma_undefined_is_first_in_expr(*right, scope_id, table);
            let first = named_in_order(names_in_order(*left), scope_id);
            let second = named_in_order(names_in_order(*right), scope_id);
            assert(named_in_order(names_in_order(expr), scope_id) =~= first + second);
            lemma_first_unresolved_of_both(first, second, table);
        },
        ExprView::Variable(name) => {
            let one = named_in_order(names_in_order(expr), scope_id);
            assert(one.len() == 1 && one[0] == (scope_id, name));
            assert(first_unresolved(one.drop_first(), table) is None);
        },
        _ => {
            assert(named_in_order(names_in_order(expr), scope_id).len() == 0);
        },
    }
}

/// The error is the first. The error of the semantic check of a scope is
/// the first reference, in the order in which the statements stand, that is
/// not visible from the scope that makes it.
pub proof fn lemma_scope_error_is_first(scope: ScopeView, table: SymbolTableView)
    ensures
        scope_error(scope, table) == first_unresolved(references_in_order(scope), table),
    decreases scope, 1nat,
{
    reveal(scope_error);
    reveal(statements_error);
    lemma_statements_error_is_first(scope.statements, scope.id, table);
}

/// What [`lemma_scope_error_is_first`] says, of a sequence of statements.
pub proof fn lemma_statements_error_is_first(
    statements: Seq<StatementView>,
    scope_id: u32,
    table: SymbolTableView,
)
    ensures
        statements_error(statements, scope_id, table) == first_unresolved(
            statements_references(statements, scope_id),
            table,
        ),
    decreases statements, 0nat,
{
    reveal(statements_error);
    reveal(statement_error);
    if statements.len() > 0 {
        lemma_statements_error_is_first(statements.drop_last(), scope_id, table);
        lemma_statement_error_is_first(statements.last(), scope_id, table);
        lemma_first_unresolved_of_both(
            statements_references(statements.drop_last(), scope_id),
            statement_references(statements.last(), scope_id),
            table,
        );
    }
}

/// What [`lemma_scope_error_is_first`] says, of one statement.
pub proof fn lemma_statement_error_is_first(
    statement: StatementView,
    scope_id: u32,
    table: SymbolTableView,
)
    ensures
        statement_error(statement, scope_id, table) == first_unresolved(
            statement_references(statement, scope_id),
            table,
        ),
    decreases statement, 0nat,
{
    reveal(statement_error);
    reveal(scope_error);
    match statement {
        StatementView::Return(e) => {
            lemma_undefined_is_first_in_expr(e, scope_id, table);
        },
        StatementView::Expression(e) => {
            lemma_undefined_is_first_in_expr(e, scope_id, table);
        },
        StatementView::VarDeclare { name, var_type, value } => {
            match value {
                Some(e) => {
                    lemma_undefined_is_first_in_expr(e, scope_id, table);
                },
                None => {},
            }
        },
        StatementView::If { condition, true_block, false_block } => {
            lemma_undefined_is_first_in_expr(condition, scope_id, table);
            lemma_scope_error_is_first(true_block, table);
            let first = named_in_order(names_in_order(condition), scope_id);
            let second = references_in_order(true_block);
            let third = match false_block {
                Some(block) => references_in_order(block),
                None => Seq::empty(),
            };
            match false_block {
                Some(block) => {
                    lemma_scope_error_is_first(block, table);
                },
                None => {},
            }
            lemma_first_unresolved_of_both(first, second, table);
            lemma_first_unresolved_of_both(first + second, third, table);
        },
    }
}

} // verus!
