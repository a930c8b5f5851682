//! The abstract syntax tree: expressions, statements, lexical scopes and
//! declarations, each with its mathematical value.
//!
//! Names and texts are `String`s in the tree and sequences of characters in
//! its value; everything else is carried over as it is.

use crate::tokenizer::{token_text, Token, TokenView};
use vstd::prelude::*;
use vstd::string::*;

verus! {

/// A binary operator.
#[derive(Debug, Eq, Hash, PartialEq, Clone, Copy, Structural)]
pub enum BinOp {
    Add,
    Sub,
    Mul,
    Div,
    Assign,
    Equals,
}

/// The token from which no operator could be made.
#[derive(Debug, PartialEq, Clone, Copy)]
pub struct NotAnOperator<'a> {
    pub token: Token<'a>,
}

/// The text of a [`NotAnOperator`] error for the token `token`.
pub open spec fn not_an_operator_text(token: TokenView) -> Seq<char> {
    "Cannot construct BinOp from "@ + token_text(token)
}

impl<'a> NotAnOperator<'a> {
    /// The error in words, with the token as the source writes it.
    pub fn message(&self) -> (text: String)
        ensures
            text@ == not_an_operator_text(self.token@),
    {
        let mut text = String::from_str("Cannot construct BinOp from ");
        text.append(self.token.text().as_str());
        text
    }
}

/// The operator that a token denotes, if it denotes one.
pub open spec fn binop_of(token: TokenView) -> Option<BinOp> {
    match token {
        TokenView::Operator(text) => if text == seq!['+'] {
            Some(BinOp::Add)
        } else if text == seq!['-'] {
            Some(BinOp::Sub)
        } else if text == seq!['*'] {
            Some(BinOp::Mul)
        } else if text == seq!['/'] {
            Some(BinOp::Div)
        } else if text == seq!['='] {
            Some(BinOp::Assign)
        } else if text == seq!['=', '='] {
            Some(BinOp::Equals)
        } else {
            None
        },
        _ => None,
    }
}

impl BinOp {
    /// How tightly the operator binds: assignment loosest, then equality,
    /// then addition and subtraction, then multiplication and division.
    pub open spec fn spec_precedence(&self) -> u32 {
        match self {
            BinOp::Add => 30,
            BinOp::Sub => 30,
            BinOp::Mul => 40,
            BinOp::Div => 40,
            BinOp::Assign => 10,
            BinOp::Equals => 20,
        }
    }

    /// The operator that `token` denotes. Every operator token denotes exactly
    /// one; any other token is handed back in the error.
    pub fn from_token<'a>(token: &Token<'a>) -> (result: Result<BinOp, NotAnOperator<'a>>)
        ensures
            match result {
                Ok(op) => binop_of(token@) == Some(op),
                Err(e) => binop_of(token@) is None && e.token == *token,
            },
    {
        proof {
            reveal_strlit("+");
            reveal_strlit("-");
            reveal_strlit("*");
            reveal_strlit("/");
            reveal_strlit("=");
            reveal_strlit("==");
            assert("+"@ =~= seq!['+']);
            assert("-"@ =~= seq!['-']);
            assert("*"@ =~= seq!['*']);
            assert("/"@ =~= seq!['/']);
            assert("="@ =~= seq!['=']);
            assert("=="@ =~= seq!['=', '=']);
        }
        match *token {
            Token::Operator(text) => {
                if *text == *"+" {
                    Ok(BinOp::Add)
                } else if *text == *"-" {
                    Ok(BinOp::Sub)
                } else if *text == *"*" {
                    Ok(BinOp::Mul)
                } else if *text == *"/" {
                    Ok(BinOp::Div)
                } else if *text == *"=" {
                    Ok(BinOp::Assign)
                } else if *text == *"==" {
                    Ok(BinOp::Equals)
                } else {
                    Err(NotAnOperator { token: *token })
                }
            },
            _ => Err(NotAnOperator { token: *token }),
        }
    }

    /// How tightly the operator binds.
    #[verifier::when_used_as_spec(spec_precedence)]
    pub fn precedence(&self) -> (p: u32)
        ensures
            p == self.spec_precedence(),
    {
        match self {
            BinOp::Add => 30,
            BinOp::Sub => 30,
            BinOp::Mul => 40,
            BinOp::Div => 40,
            BinOp::Assign => 10,
            BinOp::Equals => 20,
        }
    }
}

/// The source of scope identifiers: the number of scopes made so far.
pub struct ScopeIdCounter {
    pub counter: u32,
}

/// A lexical block: its statements in order, and an identifier that no other
/// scope of the same parse has.
#[derive(Debug, PartialEq)]
pub struct Scope {
    pub id: u32,
    pub statements: Vec<Statement>,
}

impl Scope {
    /// Makes a scope of `statements` and gives it the next identifier: one
    /// more than the last one given.
    pub fn from_statements(statements: Vec<Statement>, id_counter: &mut ScopeIdCounter) -> (scope:
        Self)
        requires
            old(id_counter).counter < u32::MAX,
        ensures
            final(id_counter).counter == old(id_counter).counter + 1,
            scope.id == final(id_counter).counter,
            scope.statements == statements,
    {
        id_counter.counter += 1;
        Scope { id: id_counter.counter, statements }
    }
}

/// An expression.
#[derive(PartialEq, Debug)]
pub enum Expr {
    IntLiteral(u64),
    StringLiteral(String),
    Variable(String),
    BinaryOperation { op: BinOp, left: Box<Expr>, right: Box<Expr> },
}

/// A statement.
#[derive(PartialEq, Debug)]
pub enum Statement {
    Return(Expr),
    Expression(Expr),
    VarDeclare { name: String, var_type: Type, value: Option<Expr> },
    If { condition: Expr, true_block: Scope, false_block: Option<Scope> },
}

/// The type of a variable or of a function's result.
#[derive(Debug, PartialEq)]
pub enum Type {
    Void,
    Int,
    Char,
    UserDefined(String),
}

impl Clone for Type {
    fn clone(&self) -> (copy: Self)
        ensures
            copy == *self,
    {
        match self {
            Type::Void => Type::Void,
            Type::Int => Type::Int,
            Type::Char => Type::Char,
            Type::UserDefined(name) => Type::UserDefined(name.clone()),
        }
    }
}

/// A declaration at the top level of a program.
#[derive(PartialEq, Debug)]
pub enum Declaration {
    Function { name: String, args: Vec<VarInfo>, return_type: Type, scope: Scope },
}

/// What is known of a declared variable.
#[derive(Debug, PartialEq)]
pub struct VarInfo {
    pub name: String,
    pub var_type: Type,
}

/// The value of a [`Type`].
pub enum TypeView {
    Void,
    Int,
    Char,
    UserDefined(Seq<char>),
}

/// The value of an [`Expr`].
pub enum ExprView {
    IntLiteral(u64),
    StringLiteral(Seq<char>),
    Variable(Seq<char>),
    BinaryOperation { op: BinOp, left: Box<ExprView>, right: Box<ExprView> },
}

/// The value of a [`Statement`].
pub enum StatementView {
    Return(ExprView),
    Expression(ExprView),
    VarDeclare { name: Seq<char>, var_type: TypeView, value: Option<ExprView> },
    If { condition: ExprView, true_block: ScopeView, false_block: Option<ScopeView> },
}

/// The value of a [`Scope`].
pub struct ScopeView {
    pub id: u32,
    pub statements: Seq<StatementView>,
}

/// The value of a [`VarInfo`].
pub struct VarInfoView {
    pub name: Seq<char>,
    pub var_type: TypeView,
}

/// The value of a [`Declaration`].
pub enum DeclarationView {
    Function { name: Seq<char>, args: Seq<VarInfoView>, return_type: TypeView, scope: ScopeView },
}

impl View for Type {
    type V = TypeView;

    open spec fn view(&self) -> TypeView {
        match self {
            Type::Void => TypeView::Void,
            Type::Int => TypeView::Int,
            Type::Char => TypeView::Char,
            Type::UserDefined(name) => TypeView::UserDefined(name@),
        }
    }
}

/// The value of an expression, node by node.
pub open spec fn expr_view(e: Expr) -> ExprView
    decreases e,
{
    match e {
        Expr::IntLiteral(value) => ExprView::IntLiteral(value),
        Expr::StringLiteral(text) => ExprView::StringLiteral(text@),
        Expr::Variable(name) => ExprView::Variable(name@),
        Expr::BinaryOperation { op, left, right } => ExprView::BinaryOperation {
            op,
            left: Box::new(expr_view(*left)),
            right: Box::new(expr_view(*right)),
        },
    }
}

impl View for Expr {
    type V = ExprView;

    open spec fn view(&self) -> ExprView {
        expr_view(*self)
    }
}

/// The value of an optional expression.
pub open spec fn option_expr_view(e: Option<Expr>) -> Option<ExprView> {
    match e {
        Some(e) => Some(e@),
        None => None,
    }
}

/// The values of a sequence of statements, one for one.
pub open spec fn statements_view(statements: Seq<Statement>) -> Seq<StatementView>
    decreases statements,
{
    Seq::new(
        statements.len(),
        |i: int|
            if 0 <= i < statements.len() {
                statement_view(statements[i])
            } else {
                arbitrary()
            },
    )
}

/// The value of a scope: its identifier and the values of its statements.
pub open spec fn scope_view(scope: Scope) -> ScopeView
    decreases scope,
{
    ScopeView { id: scope.id, statements: statements_view(scope.statements@) }
}

/// The value of a statement.
#[verifier::opaque]
pub open spec fn statement_view(statement: Statement) -> StatementView
    decreases statement,
{
    match statement {
        Statement::Return(e) => StatementView::Return(e@),
        Statement::Expression(e) => StatementView::Expression(e@),
        Statement::VarDeclare { name, var_type, value } => StatementView::VarDeclare {
            name: name@,
            var_type: var_type@,
            value: option_expr_view(value),
        },
        Statement::If { condition, true_block, false_block } => StatementView::If {
            condition: condition@,
            true_block: scope_view(true_block),
            false_block: match false_block {
                Some(block) => Some(scope_view(block)),
                None => None,
            },
        },
    }
}

impl View for Statement {
    type V = StatementView;

    open spec fn view(&self) -> StatementView {
        statement_view(*self)
    }
}

impl View for Scope {
    type V = ScopeView;

    open spec fn view(&self) -> ScopeView {
        scope_view(*self)
    }
}

impl View for VarInfo {
    type V = VarInfoView;

    open spec fn view(&self) -> VarInfoView {
        VarInfoView { name: self.name@, var_type: self.var_type@ }
    }
}

/// The values of a sequence of variables, one for one.
pub open spec fn var_infos_view(vars: Seq<VarInfo>) -> Seq<VarInfoView> {
    vars.map_values(|v: VarInfo| v@)
}

impl View for Declaration {
    type V = DeclarationView;

    open spec fn view(&self) -> DeclarationView {
        match self {
            Declaration::Function { name, args, return_type, scope } => DeclarationView::Function {
                name: name@,
                args: var_infos_view(args@),
                return_type: return_type@,
                scope: scope@,
            },
        }
    }
}

/// The values of a sequence of declarations, one for one.
pub open spec fn declarations_view(declarations: Seq<Declaration>) -> Seq<DeclarationView> {
    declarations.map_values(|d: Declaration| d@)
}

/// The value of a statement, by its kind.
pub proof fn lemma_statement_view(statement: Statement)
    ensures
        statement@ == match statement {
            Statement::Return(e) => StatementView::Return(e@),
            Statement::Expression(e) => StatementView::Expression(e@),
            Statement::VarDeclare { name, var_type, value } => StatementView::VarDeclare {
                name: name@,
                var_type: var_type@,
                value: option_expr_view(value),
            },
            Statement::If { condition, true_block, false_block } => StatementView::If {
                condition: condition@,
                true_block: true_block@,
                false_block: match false_block {
                    Some(block) => Some(block@),
                    None => None,
                },
            },
        },
{
    reveal(statement_view);
}

/// The value of a sequence of statements has the value of each statement at
/// the statement's place.
pub proof fn lemma_statements_view_index(statements: Seq<Statement>, i: int)
    requires
        0 <= i < statements.len(),
    ensures
        statements_view(statements).len() == statements.len(),
        statements_view(statements)[i] == statements[i]@,
{
    reveal(statement_view);
}

/// The value of a sequence of statements grows with the sequence.
pub proof fn lemma_statements_view_push(statements: Seq<Statement>, last: Statement)
    ensures
        statements_view(statements.push(last)) == statements_view(statements).push(last@),
{
    reveal(statement_view);
}

/// The identifiers of `scope` and of every scope nested in it.
pub open spec fn ids_of_scope(scope: ScopeView) -> Set<u32>
    decreases scope,
{
    ids_in_statements(scope.statements).insert(scope.id)
}

/// The identifiers of the scopes nested in `statements`, at any depth.
pub open spec fn ids_in_statements(statements: Seq<StatementView>) -> Set<u32>
    decreases statements,
{
    if statements.len() == 0 {
        Set::empty()
    } else {
        ids_in_statements(statements.drop_last()).union(ids_in_statement(statements.last()))
    }
}

/// The identifiers of the scopes nested in `statement`, at any depth.
pub open spec fn ids_in_statement(statement: StatementView) -> Set<u32>
    decreases statement,
{
    match statement {
        StatementView::If { condition, true_block, false_block } => ids_of_scope(true_block).union(
            match false_block {
                Some(block) => ids_of_scope(block),
                None => Set::empty(),
            },
        ),
        _ => Set::empty(),
    }
}

/// True when no two scopes among `scope` and the scopes nested in it have
/// the same identifier.
pub open spec fn distinct_ids(scope: ScopeView) -> bool
    decreases scope,
{
    !ids_in_statements(scope.statements).contains(scope.id) && distinct_in_statements(
        scope.statements,
    )
}

/// True when no two scopes nested in `statements` have the same identifier.
pub open spec fn distinct_in_statements(statements: Seq<StatementView>) -> bool
    decreases statements,
{
    statements.len() == 0 || {
        &&& distinct_in_statements(statements.drop_last())
        &&& distinct_in_statement(statements.last())
        &&& ids_in_statements(statements.drop_last()).disjoint(ids_in_statement(statements.last()))
    }
}

/// True when no two scopes nested in `statement` have the same identifier.
pub open spec fn distinct_in_statement(statement: StatementView) -> bool
    decreases statement,
{
    match statement {
        StatementView::If { condition, true_block, false_block } => distinct_ids(true_block)
            && match false_block {
            Some(block) => distinct_ids(block) && ids_of_scope(true_block).disjoint(
                ids_of_scope(block),
            ),
            None => true,
        },
        _ => true,
    }
}

/// True when `scope` and every scope nested in it has a greater identifier
/// than all the scopes nested in it: a scope is numbered after what it
/// holds.
pub open spec fn numbered_after_nested(scope: ScopeView) -> bool
    decreases scope,
{
    &&& forall|id: u32| #[trigger] ids_in_statements(scope.statements).contains(id) ==> id < scope.id
    &&& numbered_in_statements(scope.statements)
}

/// True when every scope nested in `statements` is numbered after what it
/// holds.
pub open spec fn numbered_in_statements(statements: Seq<StatementView>) -> bool
    decreases statements,
{
    statements.len() == 0 || (numbered_in_statements(statements.drop_last())
        && numbered_in_statement(statements.last()))
}

/// True when every scope nested in `statement` is numbered after what it
/// holds.
pub open spec fn numbered_in_statement(statement: StatementView) -> bool
    decreases statement,
{
    match statement {
        StatementView::If { condition, true_block, false_block } => numbered_after_nested(
            true_block,
        ) && match false_block {
            Some(block) => numbered_after_nested(block),
            None => true,
        },
        _ => true,
    }
}

/// The number of scopes that `scope` stands for: itself and every scope
/// nested in it, at any depth.
pub open spec fn scopes_of_scope(scope: ScopeView) -> nat
    decreases scope,
{
    1 + scopes_in_statements(scope.statements)
}

/// The number of scopes nested in `statements`, at any depth.
pub open spec fn scopes_in_statements(statements: Seq<StatementView>) -> nat
    decreases statements,
{
    if statements.len() == 0 {
        0
    } else {
        scopes_in_statements(statements.drop_last()) + scopes_in_statement(statements.last())
    }
}

/// The number of scopes nested in `statement`, at any depth.
pub open spec fn scopes_in_statement(statement: StatementView) -> nat
    decreases statement,
{
    match statement {
        StatementView::If { condition, true_block, false_block } => scopes_of_scope(true_block)
            + match false_block {
            Some(block) => scopes_of_scope(block),
            None => 0,
        },
        _ => 0,
    }
}

/// True when the scopes of the tree of `scope` have the identifiers from 1
/// to their number, each once, every scope a greater one than the scopes
/// nested in it; so `scope` itself has the greatest.
pub open spec fn numbered_from_one(scope: ScopeView) -> bool {
    &&& scope.id == scopes_of_scope(scope)
    &&& forall|id: u32| #[trigger]
        ids_of_scope(scope).contains(id) <==> 1 <= id <= scopes_of_scope(scope)
    &&& distinct_ids(scope)
    &&& numbered_after_nested(scope)
}

/// The scopes nested in a sequence of statements are those nested in its
/// first statement and those nested in the rest, and what holds of the
/// numbering of both holds of the sequence.
pub proof fn lemma_ids_with_first(first: StatementView, rest: Seq<StatementView>)
    ensures
        ids_in_statements(seq![first] + rest) == ids_in_statement(first).union(
            ids_in_statements(rest),
        ),
        scopes_in_statements(seq![first] + rest) == scopes_in_statement(first)
            + scopes_in_statements(rest),
        numbered_in_statements(seq![first] + rest) == (numbered_in_statement(first)
            && numbered_in_statements(rest)),
        distinct_in_statements(seq![first] + rest) == (distinct_in_statement(first)
            && distinct_in_statements(rest) && ids_in_statement(first).disjoint(
            ids_in_statements(rest),
        )),
    decreases rest.len(),
{
    let all = seq![first] + rest;
    let none = Seq::<StatementView>::empty();
    assert(ids_in_statements(none) == Set::<u32>::empty());
    assert(scopes_in_statements(none) == 0);
    assert(numbered_in_statements(none));
    assert(distinct_in_statements(none));
    if rest.len() == 0 {
        assert(all.drop_last() =~= none);
    } else {
        lemma_ids_with_first(first, rest.drop_last());
        assert(all.drop_last() =~= seq![first] + rest.drop_last());
    }
}

} // verus!
