//! The parser: a token sequence to the syntax tree of `main`.
//!
//! The first half of this file says what the parser computes, as functions
//! from a token sequence and a position to a tree and the number of tokens
//! it takes. The second half computes it by recursive descent, with
//! precedence climbing for expressions.

use crate::ast::{
    binop_of, declarations_view, distinct_in_statement, distinct_in_statements, ids_in_statement,
    ids_in_statements, lemma_ids_with_first, lemma_statement_view, lemma_statements_view_push,
    numbered_from_one, numbered_in_statement, numbered_in_statements, scopes_in_statement,
    scopes_in_statements, statements_view, var_infos_view, BinOp, Declaration, DeclarationView,
    Expr, ExprView, Scope, ScopeIdCounter, ScopeView, Statement, StatementView, Type, TypeView,
    VarInfo, VarInfoView,
};
use crate::text::{decimal, decimal_string};
use crate::tokenizer::{token_text, token_views, Token, TokenView};
use vstd::pervasive::unreached;
use vstd::prelude::*;
use vstd::slice::slice_subrange;
use vstd::string::*;

verus! {

/// Why a token sequence is not a program.
#[derive(Debug, PartialEq, Clone, Copy)]
pub enum ParseError<'a> {
    /// Another token was needed at this place; `found` is what stood there,
    /// if anything did.
    Expected { expected: Token<'a>, found: Option<Token<'a>> },
    /// Nothing of what is read at this place can start with what stands at
    /// `position`.
    UnexpectedToken { found: Option<Token<'a>>, position: usize },
    /// A variable's name was needed after its type; `token` is the last
    /// token read, at `position`.
    BadVariableName { token: Token<'a>, position: usize },
    /// The tokens ended inside a block.
    EndOfInput,
}

/// The value of a [`ParseError`].
pub enum ParseErrorView {
    Expected { expected: TokenView, found: Option<TokenView> },
    UnexpectedToken { found: Option<TokenView>, position: int },
    BadVariableName { token: TokenView, position: int },
    EndOfInput,
}

/// The value of an optional token.
pub open spec fn option_token_view(token: Option<Token>) -> Option<TokenView> {
    match token {
        Some(t) => Some(t@),
        None => None,
    }
}

impl<'a> View for ParseError<'a> {
    type V = ParseErrorView;

    open spec fn view(&self) -> ParseErrorView {
        match *self {
            ParseError::Expected { expected, found } => ParseErrorView::Expected {
                expected: expected@,
                found: option_token_view(found),
            },
            ParseError::UnexpectedToken { found, position } => ParseErrorView::UnexpectedToken {
                found: option_token_view(found),
                position: position as int,
            },
            ParseError::BadVariableName { token, position } => ParseErrorView::BadVariableName {
                token: token@,
                position: position as int,
            },
            ParseError::EndOfInput => ParseErrorView::EndOfInput,
        }
    }
}

/// The text of what was found at a place: a token, or nothing.
pub open spec fn found_text(found: Option<TokenView>) -> Seq<char> {
    match found {
        Some(token) => token_text(token),
        None => "nothing"@,
    }
}

/// The text of a [`ParseError`].
pub open spec fn parse_error_text(error: ParseErrorView) -> Seq<char> {
    match error {
        ParseErrorView::Expected { expected, found } => "Expected "@ + token_text(expected)
            + ", but got "@ + found_text(found) + (if found is None {
            "."@
        } else {
            ""@
        }),
        ParseErrorView::UnexpectedToken { found, position } => "Error parsing token "@
            + found_text(found) + " at position "@ + decimal(position as nat),
        ParseErrorView::BadVariableName { token, position } => {
            "Error parsing variable name from token "@ + token_text(token) + " at position "@
                + decimal(position as nat)
        },
        ParseErrorView::EndOfInput => "End of input."@,
    }
}

fn found_string(found: Option<Token>) -> (text: String)
    ensures
        text@ == found_text(option_token_view(found)),
{
    match found {
        Some(token) => token.text(),
        None => String::from_str("nothing"),
    }
}

impl<'a> ParseError<'a> {
    /// The error in words, with the token and the position it names.
    pub fn message(&self) -> (text: String)
        ensures
            text@ == parse_error_text(self@),
    {
        match *self {
            ParseError::Expected { expected, found } => {
                let mut text = String::from_str("Expected ");
                text.append(expected.text().as_str());
                text.append(", but got ");
                text.append(found_string(found).as_str());
                if found.is_none() {
                    text.append(".");
                } else {
                    text.append("");
                }
                text
            },
            ParseError::UnexpectedToken { found, position } => {
                let mut text = String::from_str("Error parsing token ");
                text.append(found_string(found).as_str());
                text.append(" at position ");
                text.append(decimal_string(position as u64).as_str());
                text
            },
            ParseError::BadVariableName { token, position } => {
                let mut text = String::from_str("Error parsing variable name from token ");
                text.append(token.text().as_str());
                text.append(" at position ");
                text.append(decimal_string(position as u64).as_str());
                text
            },
            ParseError::EndOfInput => String::from_str("End of input."),
        }
    }
}

/// An expression with the number of tokens it takes, or an error.
pub type ExprResult = Result<(ExprView, nat), ParseErrorView>;

/// A statement with the number of tokens it takes and the number of scopes
/// made so far, or an error.
pub type StatementResult = Result<(StatementView, nat, nat), ParseErrorView>;

/// A sequence of statements with the number of tokens it takes and the
/// number of scopes made so far, or an error.
pub type BlockResult = Result<(Seq<StatementView>, nat, nat), ParseErrorView>;

/// The number of tokens from `pos` on.
pub open spec fn tokens_left(ts: Seq<TokenView>, pos: int) -> nat {
    if pos <= ts.len() {
        (ts.len() - pos) as nat
    } else {
        0
    }
}

/// The token at `pos`, if there is one.
pub open spec fn peek_at(ts: Seq<TokenView>, pos: int) -> Option<TokenView> {
    if 0 <= pos < ts.len() {
        Some(ts[pos])
    } else {
        None
    }
}

/// The error of finding something else than `expected` at `pos`, if
/// something else stands there.
pub open spec fn expect_at(ts: Seq<TokenView>, pos: int, expected: TokenView) -> Option<
    ParseErrorView,
> {
    if peek_at(ts, pos) == Some(expected) {
        None
    } else {
        Some(ParseErrorView::Expected { expected, found: peek_at(ts, pos) })
    }
}

/// The binary operator at `pos`, if an operator stands there.
pub open spec fn operator_at(ts: Seq<TokenView>, pos: int) -> Option<BinOp> {
    match peek_at(ts, pos) {
        Some(token) => binop_of(token),
        None => None,
    }
}

/// The keyword token with the text `word`.
pub open spec fn keyword(word: Seq<char>) -> TokenView {
    TokenView::Keyword(word)
}

/// The operation `op` on `left` and `right`.
pub open spec fn binary(op: BinOp, left: ExprView, right: ExprView) -> ExprView {
    ExprView::BinaryOperation { op, left: Box::new(left), right: Box::new(right) }
}

/// `r` with `n` more tokens taken.
pub open spec fn taking(n: nat, r: ExprResult) -> ExprResult {
    match r {
        Ok((e, taken)) => Ok((e, n + taken)),
        Err(e) => Err(e),
    }
}

/// The primary expression at `pos`: a number, a string, a variable, or an
/// expression in parentheses.
pub open spec fn primary_at(ts: Seq<TokenView>, pos: int) -> ExprResult
    decreases tokens_left(ts, pos), 1nat,
{
    match peek_at(ts, pos) {
        Some(TokenView::IntegerLiteral(value)) => Ok((ExprView::IntLiteral(value), 1)),
        Some(TokenView::StringLiteral(text)) => Ok((ExprView::StringLiteral(text), 1)),
        Some(TokenView::Identifier(name)) => Ok((ExprView::Variable(name), 1)),
        Some(TokenView::OpenParen) => parenthesized_at(ts, pos),
        found => Err(ParseErrorView::UnexpectedToken { found, position: pos }),
    }
}

/// The expression between the parenthesis at `pos` and the one that closes
/// it.
pub open spec fn parenthesized_at(ts: Seq<TokenView>, pos: int) -> ExprResult
    decreases tokens_left(ts, pos), 0nat,
{
    match expect_at(ts, pos, TokenView::OpenParen) {
        Some(e) => Err(e),
        None => match expression_at(ts, pos + 1) {
            Err(e) => Err(e),
            Ok((inner, n)) => match expect_at(ts, pos + 1 + n, TokenView::CloseParen) {
                Some(e) => Err(e),
                None => Ok((inner, n + 2)),
            },
        },
    }
}

/// The expression at `pos`: a primary expression and every operator and
/// operand that follow it.
pub open spec fn expression_at(ts: Seq<TokenView>, pos: int) -> ExprResult
    decreases tokens_left(ts, pos), 3nat,
{
    match primary_at(ts, pos) {
        Err(e) => Err(e),
        Ok((lhs, n)) => taking(n, operators_at(ts, pos + n, lhs, 0)),
    }
}

/// `lhs` combined with the operators at `pos` whose precedence is at least
/// `min`, and their operands. Operators of one precedence group to the left;
/// before an operator is applied, its right operand takes in every operator
/// that binds tighter. The module [`precedence`](crate::precedence) shows
/// that the tree so built has the loosest operator at its root.
pub open spec fn operators_at(ts: Seq<TokenView>, pos: int, lhs: ExprView, min: u32) -> ExprResult
    decreases tokens_left(ts, pos), 2nat,
{
    match operator_at(ts, pos) {
        Some(op) => if op.spec_precedence() >= min {
            match primary_at(ts, pos + 1) {
                Err(e) => Err(e),
                Ok((rhs, n1)) => match tighter_at(ts, pos + 1 + n1, rhs, op) {
                    Err(e) => Err(e),
                    Ok((rhs, n2)) => taking(
                        1 + n1 + n2,
                        operators_at(ts, pos + 1 + n1 + n2, binary(op, lhs, rhs), min),
                    ),
                },
            }
        } else {
            Ok((lhs, 0))
        },
        None => Ok((lhs, 0)),
    }
}

/// `rhs`, the right operand of `op`, combined with the operators at `pos`
/// that bind tighter than `op`.
pub open spec fn tighter_at(ts: Seq<TokenView>, pos: int, rhs: ExprView, op: BinOp) -> ExprResult
    decreases tokens_left(ts, pos), 3nat,
{
    match operator_at(ts, pos) {
        Some(next) => if next.spec_precedence() > op.spec_precedence() {
            match operators_at(ts, pos, rhs, next.spec_precedence()) {
                Err(e) => Err(e),
                Ok((rhs, n)) => if n == 0 {
                    // Not reached: an operator stands at `pos` and is taken.
                    Ok((rhs, 0))
                } else {
                    taking(n, tighter_at(ts, pos + n, rhs, op))
                },
            }
        } else {
            Ok((rhs, 0))
        },
        None => Ok((rhs, 0)),
    }
}

/// The type that a token names: one of three keywords, or any identifier.
pub open spec fn type_of_token(token: TokenView) -> Option<TypeView> {
    match token {
        TokenView::Keyword(word) => if word == "void"@ {
            Some(TypeView::Void)
        } else if word == "int"@ {
            Some(TypeView::Int)
        } else if word == "char"@ {
            Some(TypeView::Char)
        } else {
            None
        },
        TokenView::Identifier(name) => Some(TypeView::UserDefined(name)),
        _ => None,
    }
}

/// The variable declaration at `pos`: a type, a name, and either a semicolon
/// or `=`, an expression and a semicolon.
pub open spec fn declaration_at(ts: Seq<TokenView>, pos: int) -> Result<
    (StatementView, nat),
    ParseErrorView,
>
    recommends
        0 <= pos < ts.len(),
{
    match type_of_token(ts[pos]) {
        None => Err(ParseErrorView::UnexpectedToken { found: Some(ts[pos]), position: pos }),
        Some(var_type) => match peek_at(ts, pos + 1) {
            Some(TokenView::Identifier(name)) => if peek_at(ts, pos + 2) == Some(
                TokenView::Semicolon,
            ) {
                Ok((StatementView::VarDeclare { name, var_type, value: None }, 3))
            } else {
                match expect_at(ts, pos + 2, TokenView::Operator("="@)) {
                    Some(e) => Err(e),
                    None => match expression_at(ts, pos + 3) {
                        Err(e) => Err(e),
                        Ok((value, n)) => match expect_at(ts, pos + 3 + n, TokenView::Semicolon) {
                            Some(e) => Err(e),
                            None => Ok(
                                (StatementView::VarDeclare { name, var_type, value: Some(value) }, n + 4),
                            ),
                        },
                    },
                }
            },
            Some(other) => Err(ParseErrorView::BadVariableName { token: other, position: pos + 1 }),
            None => Err(ParseErrorView::BadVariableName { token: ts[pos], position: pos }),
        },
    }
}

/// True when a variable declaration starts at `pos`: a type keyword, or two
/// identifiers in a row.
pub open spec fn declaration_starts_at(ts: Seq<TokenView>, pos: int) -> bool {
    match peek_at(ts, pos) {
        Some(TokenView::Keyword(word)) => word == "int"@ || word == "char"@,
        Some(TokenView::Identifier(_)) => peek_at(ts, pos + 1) is Some && peek_at(
            ts,
            pos + 1,
        )->0 is Identifier,
        _ => false,
    }
}

/// The expression at `pos` and the semicolon after it.
pub open spec fn terminated_expression_at(ts: Seq<TokenView>, pos: int) -> ExprResult {
    match expression_at(ts, pos) {
        Err(e) => Err(e),
        Ok((e, n)) => match expect_at(ts, pos + n, TokenView::Semicolon) {
            Some(e) => Err(e),
            None => Ok((e, n + 1)),
        },
    }
}

/// The statement at `pos`, when `counter` scopes have been made before it.
#[verifier::opaque]
pub open spec fn statement_at(ts: Seq<TokenView>, pos: int, counter: nat) -> StatementResult
    decreases tokens_left(ts, pos), 1nat,
{
    if peek_at(ts, pos) is None {
        Err(ParseErrorView::EndOfInput)
    } else if peek_at(ts, pos) == Some(keyword("return"@)) {
        match terminated_expression_at(ts, pos + 1) {
            Err(e) => Err(e),
            Ok((e, n)) => Ok((StatementView::Return(e), n + 1, counter)),
        }
    } else if peek_at(ts, pos) == Some(keyword("if"@)) {
        if_else_at(ts, pos, counter)
    } else if declaration_starts_at(ts, pos) {
        match declaration_at(ts, pos) {
            Err(e) => Err(e),
            Ok((s, n)) => Ok((s, n, counter)),
        }
    } else {
        match terminated_expression_at(ts, pos) {
            Err(e) => Err(e),
            Ok((e, n)) => Ok((StatementView::Expression(e), n, counter)),
        }
    }
}

/// The `if` statement at `pos`: a condition in parentheses, a block, and
/// perhaps `else` and a second block.
#[verifier::opaque]
pub open spec fn if_else_at(ts: Seq<TokenView>, pos: int, counter: nat) -> StatementResult
    decreases tokens_left(ts, pos), 0nat,
{
    match condition_at(ts, pos) {
        Err(e) => Err(e),
        Ok((condition, n1)) => match branches_at(ts, pos + n1, counter) {
            Err(e) => Err(e),
            Ok((true_block, false_block, n2, c)) => Ok(
                (StatementView::If { condition, true_block, false_block }, n1 + n2, c),
            ),
        },
    }
}

/// The condition of the `if` statement at `pos`: the keyword and an
/// expression in parentheses.
pub open spec fn condition_at(ts: Seq<TokenView>, pos: int) -> ExprResult {
    match expect_at(ts, pos, keyword("if"@)) {
        Some(e) => Err(e),
        None => match expect_at(ts, pos + 1, TokenView::OpenParen) {
            Some(e) => Err(e),
            None => match expression_at(ts, pos + 2) {
                Err(e) => Err(e),
                Ok((condition, n)) => match expect_at(ts, pos + 2 + n, TokenView::CloseParen) {
                    Some(e) => Err(e),
                    None => Ok((condition, n + 3)),
                },
            },
        },
    }
}

/// The two branches of an `if` statement: the block at `pos` and, if `else`
/// follows it, the block after that.
///
/// Each block becomes a scope once both have been read, so every scope
/// nested in either block is numbered before them. Of the two, the `else`
/// block is numbered first and the first block last.
#[verifier::opaque]
pub open spec fn branches_at(ts: Seq<TokenView>, pos: int, counter: nat) -> Result<
    (ScopeView, Option<ScopeView>, nat, nat),
    ParseErrorView,
>
    decreases tokens_left(ts, pos), 4nat,
{
    match block_at(ts, pos, counter) {
        Err(e) => Err(e),
        Ok((first, n1, c1)) => if peek_at(ts, pos + n1) == Some(keyword("else"@)) {
            match block_at(ts, pos + n1 + 1, c1) {
                Err(e) => Err(e),
                Ok((second, n2, c2)) => Ok(
                    (
                        ScopeView { id: (c2 + 2) as u32, statements: first },
                        Some(ScopeView { id: (c2 + 1) as u32, statements: second }),
                        n1 + 1 + n2,
                        c2 + 2,
                    ),
                ),
            }
        } else {
            Ok((ScopeView { id: (c1 + 1) as u32, statements: first }, None, n1, c1 + 1))
        },
    }
}

/// The statements between the brace at `pos` and the one that closes it.
#[verifier::opaque]
pub open spec fn block_at(ts: Seq<TokenView>, pos: int, counter: nat) -> BlockResult
    decreases tokens_left(ts, pos), 3nat,
{
    match expect_at(ts, pos, TokenView::OpenBrace) {
        Some(e) => Err(e),
        None => match statements_at(ts, pos + 1, counter) {
            Err(e) => Err(e),
            Ok((statements, n, c)) => Ok((statements, n + 2, c)),
        },
    }
}

/// The statements from `pos` up to the next closing brace at their level.
#[verifier::opaque]
pub open spec fn statements_at(ts: Seq<TokenView>, pos: int, counter: nat) -> BlockResult
    decreases tokens_left(ts, pos), 2nat,
{
    if peek_at(ts, pos) == Some(TokenView::CloseBrace) {
        Ok((Seq::empty(), 0, counter))
    } else if peek_at(ts, pos) is None {
        Err(ParseErrorView::EndOfInput)
    } else {
        match statement_at(ts, pos, counter) {
            Err(e) => Err(e),
            Ok((first, n, c)) => if n == 0 {
                // Not reached: a statement takes at least one token.
                Err(ParseErrorView::EndOfInput)
            } else {
                match statements_at(ts, pos + n, c) {
                    Err(e) => Err(e),
                    Ok((rest, m, c2)) => Ok((seq![first] + rest, n + m, c2)),
                }
            },
        }
    }
}

/// The four tokens that every program starts with: `int main()`.
pub open spec fn main_prefix() -> Seq<TokenView> {
    seq![
        keyword("int"@),
        TokenView::Identifier("main"@),
        TokenView::OpenParen,
        TokenView::CloseParen,
    ]
}

/// True when `ts` has the outline of a program: it starts with `int main()`
/// and ends with a closing brace.
pub open spec fn has_main_outline(ts: Seq<TokenView>) -> bool {
    &&& ts.len() >= 5
    &&& ts.subrange(0, 4) == main_prefix()
    &&& ts.last() == TokenView::CloseBrace
}

/// The function `main` with the body `statements`, when `counter` scopes are
/// nested in the body.
pub open spec fn main_function(statements: Seq<StatementView>, counter: nat) -> DeclarationView {
    DeclarationView::Function {
        name: "main"@,
        args: Seq::<VarInfoView>::empty(),
        return_type: TypeView::Int,
        scope: ScopeView { id: (counter + 1) as u32, statements },
    }
}

/// The declarations of the program `ts`: the function `main` alone, whose
/// body is the block after the four tokens of `int main()`. The block must
/// take every token that is left: a token after the brace that closes the
/// body is an error. Positions in errors count from the brace that opens the
/// body.
pub open spec fn program_of(ts: Seq<TokenView>) -> Result<Seq<DeclarationView>, ParseErrorView> {
    let body = ts.subrange(4, ts.len() as int);
    match block_at(body, 0, 0) {
        Err(e) => Err(e),
        Ok((statements, n, counter)) => if n < body.len() {
            Err(ParseErrorView::UnexpectedToken { found: Some(body[n as int]), position: n as int })
        } else {
            Ok(seq![main_function(statements, counter)])
        },
    }
}

/// True when `result` is what `expected` says, for an expression that took
/// `taken` tokens.
pub open spec fn is_expr_outcome(result: Result<Expr, ParseError>, taken: int, expected: ExprResult) -> bool {
    match result {
        Ok(e) => taken >= 0 && expected == Ok::<(ExprView, nat), ParseErrorView>((e@, taken as nat)),
        Err(err) => expected == Err::<(ExprView, nat), ParseErrorView>(err@),
    }
}

/// True when `result` is what `expected` says, for a statement that took
/// `taken` tokens and left the number of scopes at `counter`.
pub open spec fn is_statement_outcome(
    result: Result<Statement, ParseError>,
    taken: int,
    counter: u32,
    expected: StatementResult,
) -> bool {
    match result {
        Ok(s) => taken >= 0 && expected == Ok::<(StatementView, nat, nat), ParseErrorView>(
            (s@, taken as nat, counter as nat),
        ),
        Err(err) => expected == Err::<(StatementView, nat, nat), ParseErrorView>(err@),
    }
}

/// True when `result` is what `expected` says, for statements that took
/// `taken` tokens and left the number of scopes at `counter`.
pub open spec fn is_block_outcome(
    result: Result<Vec<Statement>, ParseError>,
    taken: int,
    counter: u32,
    expected: BlockResult,
) -> bool {
    match result {
        Ok(statements) => taken >= 0 && expected == Ok::<
            (Seq<StatementView>, nat, nat),
            ParseErrorView,
        >((statements_view(statements@), taken as nat, counter as nat)),
        Err(err) => expected == Err::<(Seq<StatementView>, nat, nat), ParseErrorView>(err@),
    }
}

/// `done`, read in `n` tokens, in front of the statements of `rest`; the
/// error of `rest` if it is one.
pub open spec fn put_before(done: Seq<StatementView>, n: nat, rest: BlockResult) -> BlockResult {
    match rest {
        Ok((statements, m, counter)) => Ok((done + statements, n + m, counter)),
        Err(e) => Err(e),
    }
}

proof fn lemma_put_before_step(
    done: Seq<StatementView>,
    n: nat,
    first: StatementView,
    k: nat,
    rest: BlockResult,
)
    ensures
        put_before(done, n, put_before(seq![first], k, rest)) == put_before(
            done.push(first),
            n + k,
            rest,
        ),
{
    if let Ok((statements, m, counter)) = rest {
        assert(done + (seq![first] + statements) =~= done.push(first) + statements);
    }
}

/// What [`statement_at`] is, one step unfolded.
proof fn lemma_statement_at(ts: Seq<TokenView>, pos: int, counter: nat)
    ensures
        statement_at(ts, pos, counter) == if peek_at(ts, pos) is None {
            Err(ParseErrorView::EndOfInput)
        } else if peek_at(ts, pos) == Some(keyword("return"@)) {
            match terminated_expression_at(ts, pos + 1) {
                Err(e) => Err(e),
                Ok((e, n)) => Ok((StatementView::Return(e), n + 1, counter)),
            }
        } else if peek_at(ts, pos) == Some(keyword("if"@)) {
            if_else_at(ts, pos, counter)
        } else if declaration_starts_at(ts, pos) {
            match declaration_at(ts, pos) {
                Err(e) => Err(e),
                Ok((s, n)) => Ok((s, n, counter)),
            }
        } else {
            match terminated_expression_at(ts, pos) {
                Err(e) => Err(e),
                Ok((e, n)) => Ok((StatementView::Expression(e), n, counter)),
            }
        },
{
    reveal(statement_at);
    reveal(if_else_at);
}

/// What [`if_else_at`] is, one step unfolded.
proof fn lemma_if_else_at(ts: Seq<TokenView>, pos: int, counter: nat)
    ensures
        if_else_at(ts, pos, counter) == match condition_at(ts, pos) {
            Err(e) => Err(e),
            Ok((condition, n1)) => match branches_at(ts, pos + n1, counter) {
                Err(e) => Err(e),
                Ok((true_block, false_block, n2, c)) => Ok(
                    (StatementView::If { condition, true_block, false_block }, n1 + n2, c),
                ),
            },
        },
{
    reveal(if_else_at);
    reveal(branches_at);
}

/// What [`branches_at`] is, one step unfolded.
proof fn lemma_branches_at(ts: Seq<TokenView>, pos: int, counter: nat)
    ensures
        branches_at(ts, pos, counter) == match block_at(ts, pos, counter) {
            Err(e) => Err(e),
            Ok((first, n1, c1)) => if peek_at(ts, pos + n1) == Some(keyword("else"@)) {
                match block_at(ts, pos + n1 + 1, c1) {
                    Err(e) => Err(e),
                    Ok((second, n2, c2)) => Ok(
                        (
                            ScopeView { id: (c2 + 2) as u32, statements: first },
                            Some(ScopeView { id: (c2 + 1) as u32, statements: second }),
                            n1 + 1 + n2,
                            c2 + 2,
                        ),
                    ),
                }
            } else {
                Ok((ScopeView { id: (c1 + 1) as u32, statements: first }, None, n1, c1 + 1))
            },
        },
{
    reveal(branches_at);
    reveal(block_at);
}

/// What [`block_at`] is, one step unfolded.
proof fn lemma_block_at(ts: Seq<TokenView>, pos: int, counter: nat)
    ensures
        block_at(ts, pos, counter) == match expect_at(ts, pos, TokenView::OpenBrace) {
            Some(e) => Err(e),
            None => match statements_at(ts, pos + 1, counter) {
                Err(e) => Err(e),
                Ok((statements, n, c)) => Ok((statements, n + 2, c)),
            },
        },
{
    reveal(block_at);
    reveal(statements_at);
}

/// What [`statements_at`] is, one step unfolded.
proof fn lemma_statements_at(ts: Seq<TokenView>, pos: int, counter: nat)
    ensures
        statements_at(ts, pos, counter) == if peek_at(ts, pos) == Some(TokenView::CloseBrace) {
            Ok((Seq::empty(), 0, counter))
        } else if peek_at(ts, pos) is None {
            Err(ParseErrorView::EndOfInput)
        } else {
            match statement_at(ts, pos, counter) {
                Err(e) => Err(e),
                Ok((first, n, c)) => if n == 0 {
                    Err(ParseErrorView::EndOfInput)
                } else {
                    put_before(seq![first], n, statements_at(ts, pos + n, c))
                },
            }
        },
{
    reveal(statements_at);
    reveal(statement_at);
}

/// True when the identifiers of `ids` are exactly those above `lo` up to
/// `hi`.
pub open spec fn ids_between(ids: Set<u32>, lo: nat, hi: nat) -> bool {
    forall|id: u32| #[trigger] ids.contains(id) <==> lo < id <= hi
}

/// True when the scopes nested in `statements` are numbered from `lo` on and
/// up to `hi`: there are `hi - lo` of them, their identifiers are those
/// above `lo` up to `hi`, no two scopes share one, and each scope is
/// numbered after what it holds.
pub open spec fn numbered_between(statements: Seq<StatementView>, lo: nat, hi: nat) -> bool {
    &&& hi == lo + scopes_in_statements(statements)
    &&& ids_between(ids_in_statements(statements), lo, hi)
    &&& distinct_in_statements(statements)
    &&& numbered_in_statements(statements)
}

/// What [`numbered_between`] says, of one statement.
pub open spec fn statement_numbered_between(statement: StatementView, lo: nat, hi: nat) -> bool {
    &&& hi == lo + scopes_in_statement(statement)
    &&& ids_between(ids_in_statement(statement), lo, hi)
    &&& distinct_in_statement(statement)
    &&& numbered_in_statement(statement)
}

/// True when the branches of an `if` statement have the two greatest of the
/// identifiers up to `hi`: the first branch `hi`, and the second, if there
/// is one, `hi - 1`.
pub open spec fn branches_numbered_last(statement: StatementView, hi: nat) -> bool {
    match statement {
        StatementView::If { condition, true_block, false_block } => true_block.id == hi
            && match false_block {
            Some(block) => block.id + 1 == hi,
            None => true,
        },
        _ => true,
    }
}

/// An operator that binds tightly enough is taken: the guard in
/// [`tighter_at`] is never met.
pub proof fn lemma_operator_is_taken(ts: Seq<TokenView>, pos: int, lhs: ExprView, min: u32)
    requires
        operator_at(ts, pos) matches Some(op) && op.spec_precedence() >= min,
    ensures
        operators_at(ts, pos, lhs, min) matches Ok((_, n)) ==> n >= 1,
{
}

/// A statement takes at least one token: the guard in [`statements_at`] is
/// never met.
pub proof fn lemma_statement_takes_tokens(ts: Seq<TokenView>, pos: int, counter: nat)
    ensures
        statement_at(ts, pos, counter) matches Ok((_, n, _)) ==> n >= 1,
{
    lemma_statement_at(ts, pos, counter);
    lemma_if_else_at(ts, pos, counter);
}

/// Scope numbering. The scopes of a parsed statement are numbered from the
/// counter on, each after the scopes nested in it: if the statement at `pos`
/// is read with `counter` scopes made before and `c` after, and `c` fits an
/// identifier, then `c` is `counter` and the number of scopes of the
/// statement, and these scopes have the identifiers `counter + 1` to `c`,
/// each once. Of the branches of an `if` statement the first has the
/// identifier `c`, and the second, if there is one, `c - 1`.
pub proof fn lemma_statement_numbering(ts: Seq<TokenView>, pos: int, counter: nat)
    requires
        statement_at(ts, pos, counter) is Ok,
        statement_at(ts, pos, counter)->Ok_0.2 <= u32::MAX,
    ensures
        ({
            let (statement, n, c) = statement_at(ts, pos, counter)->Ok_0;
            &&& statement_numbered_between(statement, counter, c)
            &&& branches_numbered_last(statement, c)
        }),
    decreases tokens_left(ts, pos), 1nat,
{
    lemma_statement_at(ts, pos, counter);
    if peek_at(ts, pos) == Some(keyword("if"@)) && peek_at(ts, pos) != Some(keyword("return"@)) {
        lemma_if_else_numbering(ts, pos, counter);
    }
}

/// The numbering of the scopes of an `if` statement; see
/// [`lemma_statement_numbering`].
pub proof fn lemma_if_else_numbering(ts: Seq<TokenView>, pos: int, counter: nat)
    requires
        if_else_at(ts, pos, counter) is Ok,
        if_else_at(ts, pos, counter)->Ok_0.2 <= u32::MAX,
    ensures
        ({
            let (statement, n, c) = if_else_at(ts, pos, counter)->Ok_0;
            &&& statement is If
            &&& statement_numbered_between(statement, counter, c)
            &&& branches_numbered_last(statement, c)
        }),
    decreases tokens_left(ts, pos), 0nat,
{
    lemma_if_else_at(ts, pos, counter);
    let taken = condition_at(ts, pos)->Ok_0.1;
    lemma_branches_numbering(ts, pos + taken, counter);
}

/// The numbering of the two branches of an `if` statement: the scopes
/// nested in them come first, then the second branch, then the first.
pub proof fn lemma_branches_numbering(ts: Seq<TokenView>, pos: int, counter: nat)
    requires
        branches_at(ts, pos, counter) is Ok,
        branches_at(ts, pos, counter)->Ok_0.3 <= u32::MAX,
    ensures
        ({
            let (true_block, false_block, n, c) = branches_at(ts, pos, counter)->Ok_0;
            let statement = StatementView::If {
                condition: ExprView::IntLiteral(0),
                true_block,
                false_block,
            };
            &&& statement_numbered_between(statement, counter, c)
            &&& branches_numbered_last(statement, c)
        }),
    decreases tokens_left(ts, pos), 4nat,
{
    lemma_branches_at(ts, pos, counter);
    lemma_block_at(ts, pos, counter);
    let (_, n1, c1) = block_at(ts, pos, counter)->Ok_0;
    if peek_at(ts, pos + n1) == Some(keyword("else"@)) {
        lemma_block_numbering(ts, pos + n1 + 1, c1);
    }
    lemma_block_numbering(ts, pos, counter);
}

/// The numbering of the scopes nested in a block; see
/// [`lemma_statement_numbering`].
pub proof fn lemma_block_numbering(ts: Seq<TokenView>, pos: int, counter: nat)
    requires
        block_at(ts, pos, counter) is Ok,
        block_at(ts, pos, counter)->Ok_0.2 <= u32::MAX,
    ensures
        ({
            let (statements, n, c) = block_at(ts, pos, counter)->Ok_0;
            numbered_between(statements, counter, c)
        }),
    decreases tokens_left(ts, pos), 3nat,
{
    lemma_block_at(ts, pos, counter);
    lemma_statements_numbering(ts, pos + 1, counter);
}

/// The numbering of the scopes nested in a sequence of statements; see
/// [`lemma_statement_numbering`].
pub proof fn lemma_statements_numbering(ts: Seq<TokenView>, pos: int, counter: nat)
    requires
        statements_at(ts, pos, counter) is Ok,
        statements_at(ts, pos, counter)->Ok_0.2 <= u32::MAX,
    ensures
        ({
            let (statements, n, c) = statements_at(ts, pos, counter)->Ok_0;
            numbered_between(statements, counter, c)
        }),
    decreases tokens_left(ts, pos), 2nat,
{
    lemma_statements_at(ts, pos, counter);
    if peek_at(ts, pos) != Some(TokenView::CloseBrace) {
        let (first, n, c) = statement_at(ts, pos, counter)->Ok_0;
        let rest = statements_at(ts, pos + n, c)->Ok_0.0;
        lemma_statements_numbering(ts, pos + n, c);
        lemma_statement_numbering(ts, pos, counter);
        lemma_ids_with_first(first, rest);
    }
}

/// The state of a parse: the tokens, the position of the next one, and the
/// source of scope identifiers.
struct Parser<'t, 'a> {
    tokens: &'t [Token<'a>],
    pos: usize,
    scope_id_counter: ScopeIdCounter,
}

impl<'t, 'a> Parser<'t, 'a> {
    /// The values of the tokens.
    spec fn ts(&self) -> Seq<TokenView> {
        token_views(self.tokens@)
    }

    /// The position is within the tokens, no more scopes have been made than
    /// tokens read, and identifiers cannot run out.
    spec fn wf(&self) -> bool {
        self.scope_id_counter.counter <= self.pos <= self.tokens@.len() <= u32::MAX
    }

    /// True when `self` is what `before` becomes by reading an expression:
    /// the same tokens, a position not before, as many scopes made, and the
    /// state still in order, whether the expression could be read or not.
    spec fn follows(&self, before: &Parser<'t, 'a>) -> bool {
        &&& self.tokens == before.tokens
        &&& self.wf()
        &&& self.pos >= before.pos
        &&& self.scope_id_counter.counter == before.scope_id_counter.counter
    }

    /// True when `self` is what `before` becomes by reading statements: the
    /// same tokens, a position and a number of scopes not before, and the
    /// state still in order; and when the statements could be read, a later
    /// position, and at least `spare` more tokens read than scopes made.
    spec fn advances(&self, before: &Parser<'t, 'a>, ok: bool, spare: int) -> bool {
        &&& self.tokens == before.tokens
        &&& self.wf()
        &&& self.pos >= before.pos
        &&& self.scope_id_counter.counter >= before.scope_id_counter.counter
        &&& ok ==> {
            &&& self.pos > before.pos
            &&& self.scope_id_counter.counter - before.scope_id_counter.counter + spare
                <= self.pos - before.pos
        }
    }

    fn new(tokens: &'t [Token<'a>]) -> (parser: Self)
        requires
            tokens@.len() <= u32::MAX,
        ensures
            parser.tokens == tokens,
            parser.pos == 0,
            parser.scope_id_counter.counter == 0,
            parser.wf(),
    {
        Parser { tokens, pos: 0, scope_id_counter: ScopeIdCounter { counter: 0 } }
    }

    /// The next token, if there is one.
    fn peek(&self) -> (token: Option<Token<'a>>)
        requires
            self.wf(),
        ensures
            option_token_view(token) == peek_at(self.ts(), self.pos as int),
            token matches Some(t) ==> self.pos < self.tokens@.len() && t == self.tokens@[self.pos as int],
            token is None ==> self.pos == self.tokens@.len(),
    {
        if self.pos < self.tokens.len() {
            Some(self.tokens[self.pos])
        } else {
            None
        }
    }

    /// The token after the next one, if there is one.
    fn peek_second(&self) -> (token: Option<Token<'a>>)
        requires
            self.wf(),
        ensures
            option_token_view(token) == peek_at(self.ts(), self.pos + 1),
    {
        if self.pos < self.tokens.len() && self.pos + 1 < self.tokens.len() {
            Some(self.tokens[self.pos + 1])
        } else {
            None
        }
    }

    /// Takes the next token, if there is one.
    fn advance(&mut self) -> (token: Option<Token<'a>>)
        requires
            old(self).wf(),
        ensures
            final(self).follows(old(self)),
            option_token_view(token) == peek_at(old(self).ts(), old(self).pos as int),
            token matches Some(t) ==> old(self).pos < old(self).tokens@.len() && t == old(
                self,
            ).tokens@[old(self).pos as int],
            final(self).pos == old(self).pos + (if token is Some {
                1int
            } else {
                0int
            }),
    {
        if self.pos < self.tokens.len() {
            let token = self.tokens[self.pos];
            self.pos += 1;
            Some(token)
        } else {
            None
        }
    }

    /// Takes the next token, which must be `expected`.
    fn expect(&mut self, expected: &Token<'a>) -> (result: Result<Token<'a>, ParseError<'a>>)
        requires
            old(self).wf(),
        ensures
            final(self).follows(old(self)),
            match result {
                Ok(token) => {
                    &&& expect_at(old(self).ts(), old(self).pos as int, expected@) is None
                    &&& token@ == expected@
                    &&& final(self).pos == old(self).pos + 1
                },
                Err(e) => expect_at(old(self).ts(), old(self).pos as int, expected@) == Some(e@),
            },
    {
        match self.advance() {
            Some(token) => {
                if token.same_as(expected) {
                    Ok(token)
                } else {
                    Err(ParseError::Expected { expected: *expected, found: Some(token) })
                }
            },
            None => Err(ParseError::Expected { expected: *expected, found: None }),
        }
    }

    /// Reads an expression in parentheses.
    fn parse_parenthesis(&mut self) -> (result: Result<Expr, ParseError<'a>>)
        requires
            old(self).wf(),
        ensures
            final(self).follows(old(self)),
            is_expr_outcome(
                result,
                final(self).pos - old(self).pos,
                parenthesized_at(old(self).ts(), old(self).pos as int),
            ),
        decreases old(self).tokens@.len() - old(self).pos, 0nat,
    {
        self.expect(&Token::OpenParen)?;
        let inner = self.parse_expression()?;
        self.expect(&Token::CloseParen)?;
        Ok(inner)
    }

    /// Reads a primary expression: a number, a string, a variable, or an
    /// expression in parentheses.
    fn parse_primary_expression(&mut self) -> (result: Result<Expr, ParseError<'a>>)
        requires
            old(self).wf(),
        ensures
            final(self).follows(old(self)),
            is_expr_outcome(
                result,
                final(self).pos - old(self).pos,
                primary_at(old(self).ts(), old(self).pos as int),
            ),
        decreases old(self).tokens@.len() - old(self).pos, 1nat,
    {
        match self.peek() {
            Some(Token::IntegerLiteral(i)) => {
                self.advance();
                Ok(Expr::IntLiteral(i))
            },
            Some(Token::StringLiteral(s)) => {
                let str_literal = s.to_owned();
                self.advance();
                Ok(Expr::StringLiteral(str_literal))
            },
            Some(Token::Identifier(name)) => {
                let var_name = name.to_owned();
                self.advance();
                Ok(Expr::Variable(var_name))
            },
            Some(Token::OpenParen) => self.parse_parenthesis(),
            found => Err(ParseError::UnexpectedToken { found, position: self.pos }),
        }
    }

    /// Reads an expression.
    fn parse_expression(&mut self) -> (result: Result<Expr, ParseError<'a>>)
        requires
            old(self).wf(),
        ensures
            final(self).follows(old(self)),
            is_expr_outcome(
                result,
                final(self).pos - old(self).pos,
                expression_at(old(self).ts(), old(self).pos as int),
            ),
        decreases old(self).tokens@.len() - old(self).pos, 3nat,
    {
        let lhs = self.parse_primary_expression()?;
        self.parse_expression_precedence(lhs, 0)
    }

    /// Reads the operators that follow `lhs` and bind at least as tightly as
    /// `min_precedence`, with their operands, and combines them with `lhs`.
    fn parse_expression_precedence(&mut self, lhs: Expr, min_precedence: u32) -> (result: Result<
        Expr,
        ParseError<'a>,
    >)
        requires
            old(self).wf(),
        ensures
            final(self).follows(old(self)),
            is_expr_outcome(
                result,
                final(self).pos - old(self).pos,
                operators_at(old(self).ts(), old(self).pos as int, lhs@, min_precedence),
            ),
        decreases old(self).tokens@.len() - old(self).pos, 2nat,
    {
        let ghost ts = self.ts();
        let ghost start = self.pos as int;
        let ghost first = lhs@;
        let mut combined = lhs;
        loop
            invariant
                self.follows(old(self)),
                ts == self.ts(),
                start == old(self).pos,
                first == lhs@,
                operators_at(ts, start, first, min_precedence) == taking(
                    (self.pos - start) as nat,
                    operators_at(ts, self.pos as int, combined@, min_precedence),
                ),
            ensures
                operators_at(ts, self.pos as int, combined@, min_precedence) == Ok::<
                    (ExprView, nat),
                    ParseErrorView,
                >((combined@, 0)),
            decreases self.tokens@.len() - self.pos,
        {
            let op = match self.peek() {
                None => {
                    break ;
                },
                Some(token) => match BinOp::from_token(&token) {
                    Ok(op) => {
                        if op.precedence() >= min_precedence {
                            op
                        } else {
                            break ;
                        }
                    },
                    Err(_) => {
                        break ;
                    },
                },
            };
            let ghost at_operator = self.pos as int;
            let ghost left = combined@;
            self.advance();
            let mut rhs = self.parse_primary_expression()?;
            let ghost after_primary = self.pos as int;
            let ghost primary = rhs@;
            loop
                invariant
                    self.follows(old(self)),
                    ts == self.ts(),
                    start == old(self).pos,
                    first == lhs@,
                    start <= at_operator < after_primary <= self.pos,
                    operators_at(ts, start, first, min_precedence) == taking(
                        (at_operator - start) as nat,
                        operators_at(ts, at_operator, left, min_precedence),
                    ),
                    operator_at(ts, at_operator) == Some(op),
                    op.spec_precedence() >= min_precedence,
                    primary_at(ts, at_operator + 1) == Ok::<(ExprView, nat), ParseErrorView>(
                        (primary, (after_primary - at_operator - 1) as nat),
                    ),
                    tighter_at(ts, after_primary, primary, op) == taking(
                        (self.pos - after_primary) as nat,
                        tighter_at(ts, self.pos as int, rhs@, op),
                    ),
                ensures
                    tighter_at(ts, self.pos as int, rhs@, op) == Ok::<(ExprView, nat), ParseErrorView>(
                        (rhs@, 0),
                    ),
                decreases self.tokens@.len() - self.pos,
            {
                let next_op = match self.peek() {
                    None => {
                        break ;
                    },
                    Some(next_token) => match BinOp::from_token(&next_token) {
                        Ok(next_op) => {
                            if next_op.precedence() > op.precedence() {
                                next_op
                            } else {
                                break ;
                            }
                        },
                        Err(_) => {
                            break ;
                        },
                    },
                };
                rhs = self.parse_expression_precedence(rhs, next_op.precedence())?;
            }
            combined = Expr::BinaryOperation { op, left: Box::new(combined), right: Box::new(rhs) };
        }
        Ok(combined)
    }

    /// Reads the statements between two braces.
    fn parse_brace_block(&mut self) -> (result: Result<Vec<Statement>, ParseError<'a>>)
        requires
            old(self).wf(),
        ensures
            final(self).advances(old(self), result is Ok, 1),
            is_block_outcome(
                result,
                final(self).pos - old(self).pos,
                final(self).scope_id_counter.counter,
                block_at(
                    old(self).ts(),
                    old(self).pos as int,
                    old(self).scope_id_counter.counter as nat,
                ),
            ),
        decreases old(self).tokens@.len() - old(self).pos, 3nat,
    {
        let ghost ts = self.ts();
        let ghost start = self.pos as int;
        let ghost counter = self.scope_id_counter.counter as nat;
        proof {
            lemma_block_at(ts, start, counter);
        }
        self.expect(&Token::OpenBrace)?;

        let mut brace_block: Vec<Statement> = Vec::new();
        proof {
            let all = statements_at(ts, start + 1, counter);
            if let Ok((statements, _, _)) = all {
                assert(Seq::<StatementView>::empty() + statements =~= statements);
            }
        }
        loop
            invariant
                self.tokens == old(self).tokens,
                self.wf(),
                ts == self.ts(),
                start == old(self).pos,
                counter == old(self).scope_id_counter.counter,
                expect_at(ts, start, TokenView::OpenBrace) is None,
                start < self.pos,
                self.scope_id_counter.counter >= counter,
                self.scope_id_counter.counter - counter < self.pos - start,
                statements_at(ts, start + 1, counter) == put_before(
                    statements_view(brace_block@),
                    (self.pos - start - 1) as nat,
                    statements_at(ts, self.pos as int, self.scope_id_counter.counter as nat),
                ),
                block_at(ts, start, counter) == match statements_at(ts, start + 1, counter) {
                    Err(e) => Err(e),
                    Ok((statements, n, c)) => Ok((statements, n + 2, c)),
                },
            ensures
                peek_at(ts, self.pos as int) == Some(TokenView::CloseBrace),
            decreases self.tokens@.len() - self.pos,
        {
            match self.peek() {
                Some(Token::CloseBrace) => {
                    break ;
                },
                _ => {},
            }
            let ghost at_statement = self.pos as int;
            let ghost before = self.scope_id_counter.counter as nat;
            proof {
                lemma_statements_at(ts, at_statement, before);
                lemma_statement_at(ts, at_statement, before);
            }
            let statement = match self.parse_statement() {
                Ok(statement) => statement,
                Err(e) => {
                    return Err(e);
                },
            };
            proof {
                let n = (self.pos - at_statement) as nat;
                let rest = statements_at(
                    ts,
                    self.pos as int,
                    self.scope_id_counter.counter as nat,
                );
                lemma_put_before_step(
                    statements_view(brace_block@),
                    (at_statement - start - 1) as nat,
                    statement@,
                    n,
                    rest,
                );
                lemma_statements_view_push(brace_block@, statement);
            }
            brace_block.push(statement);
        }
        proof {
            lemma_statements_at(ts, self.pos as int, self.scope_id_counter.counter as nat);
        }
        self.expect(&Token::CloseBrace)?;

        Ok(brace_block)
    }

    /// Reads a variable declaration: a type, a name, and either a semicolon
    /// or `=`, an expression and a semicolon.
    fn parse_variable_declaration(&mut self) -> (result: Result<Statement, ParseError<'a>>)
        requires
            old(self).wf(),
            old(self).pos < old(self).tokens@.len(),
        ensures
            final(self).advances(old(self), result is Ok, 1),
            final(self).scope_id_counter.counter == old(self).scope_id_counter.counter,
            match result {
                Ok(s) => declaration_at(old(self).ts(), old(self).pos as int) == Ok::<
                    (StatementView, nat),
                    ParseErrorView,
                >((s@, (final(self).pos - old(self).pos) as nat)),
                Err(e) => declaration_at(old(self).ts(), old(self).pos as int) == Err::<
                    (StatementView, nat),
                    ParseErrorView,
                >(e@),
            },
    {
        let var_type = match self.advance() {
            Some(Token::Keyword(word)) => {
                if *word == *"void" {
                    Type::Void
                } else if *word == *"int" {
                    Type::Int
                } else if *word == *"char" {
                    Type::Char
                } else {
                    return Err(
                        ParseError::UnexpectedToken {
                            found: Some(Token::Keyword(word)),
                            position: self.pos - 1,
                        },
                    );
                }
            },
            Some(Token::Identifier(type_text)) => Type::UserDefined(type_text.to_owned()),
            Some(other) => {
                return Err(
                    ParseError::UnexpectedToken { found: Some(other), position: self.pos - 1 },
                );
            },
            None => unreached(),
        };
        let name: String = match self.advance() {
            Some(Token::Identifier(var_name)) => var_name.to_owned(),
            Some(other) => {
                return Err(ParseError::BadVariableName { token: other, position: self.pos - 1 });
            },
            None => {
                return Err(
                    ParseError::BadVariableName {
                        token: self.tokens[self.pos - 1],
                        position: self.pos - 1,
                    },
                );
            },
        };

        let value = match self.peek() {
            Some(Token::Semicolon) => {
                self.advance();
                None
            },
            _ => {
                self.expect(&Token::Operator("="))?;
                let expression = Some(self.parse_expression()?);
                self.expect(&Token::Semicolon)?;
                expression
            },
        };

        let statement = Statement::VarDeclare { name, var_type, value };
        proof {
            lemma_statement_view(statement);
        }
        Ok(statement)
    }

    /// Reads an `if` statement: the keyword, a condition in parentheses, a
    /// block and, after `else`, a second block. The scopes of the two blocks
    /// are made when both have been read: first the one of the `else`
    /// block, then the one of the first block.
    fn parse_if_else(&mut self) -> (result: Result<Statement, ParseError<'a>>)
        requires
            old(self).wf(),
        ensures
            final(self).advances(old(self), result is Ok, 1),
            is_statement_outcome(
                result,
                final(self).pos - old(self).pos,
                final(self).scope_id_counter.counter,
                if_else_at(
                    old(self).ts(),
                    old(self).pos as int,
                    old(self).scope_id_counter.counter as nat,
                ),
            ),
        decreases old(self).tokens@.len() - old(self).pos, 0nat,
    {
        let ghost ts = self.ts();
        let ghost start = self.pos as int;
        let ghost counter = self.scope_id_counter.counter as nat;
        proof {
            lemma_if_else_at(ts, start, counter);
        }
        self.expect(&Token::Keyword("if"))?;
        self.expect(&Token::OpenParen)?;
        let condition = self.parse_expression()?;
        self.expect(&Token::CloseParen)?;
        proof {
            lemma_branches_at(ts, self.pos as int, counter);
        }

        let true_statements = self.parse_brace_block()?;

        let is_else = match self.peek() {
            Some(Token::Keyword(word)) => *word == *"else",
            _ => false,
        };
        let false_block = if is_else {
            self.expect(&Token::Keyword("else"))?;
            let false_statements = self.parse_brace_block()?;
            Some(Scope::from_statements(false_statements, &mut self.scope_id_counter))
        } else {
            None
        };

        let statement = Statement::If {
            condition,
            true_block: Scope::from_statements(true_statements, &mut self.scope_id_counter),
            false_block,
        };
        proof {
            lemma_statement_view(statement);
        }
        Ok(statement)
    }

    /// Reads one statement: `return` and an expression, an `if` statement, a
    /// variable declaration, or an expression; all but the `if` statement
    /// end with a semicolon.
    fn parse_statement(&mut self) -> (result: Result<Statement, ParseError<'a>>)
        requires
            old(self).wf(),
        ensures
            final(self).advances(old(self), result is Ok, 1),
            is_statement_outcome(
                result,
                final(self).pos - old(self).pos,
                final(self).scope_id_counter.counter,
                statement_at(
                    old(self).ts(),
                    old(self).pos as int,
                    old(self).scope_id_counter.counter as nat,
                ),
            ),
        decreases old(self).tokens@.len() - old(self).pos, 1nat,
    {
        proof {
            lemma_statement_at(
                self.ts(),
                self.pos as int,
                self.scope_id_counter.counter as nat,
            );
        }
        let token = self.peek();
        let next_token = self.peek_second();
        match token {
            None => Err(ParseError::EndOfInput),
            Some(token) => {
                let is_return = match token {
                    Token::Keyword(word) => *word == *"return",
                    _ => false,
                };
                let is_if = match token {
                    Token::Keyword(word) => *word == *"if",
                    _ => false,
                };
                let is_declaration = match token {
                    Token::Keyword(word) => *word == *"int" || *word == *"char",
                    Token::Identifier(_) => match next_token {
                        Some(Token::Identifier(_)) => true,
                        _ => false,
                    },
                    _ => false,
                };
                if is_return {
                    self.advance();
                    let expression = self.parse_expression()?;
                    self.expect(&Token::Semicolon)?;
                    let statement = Statement::Return(expression);
                    proof {
                        lemma_statement_view(statement);
                    }
                    Ok(statement)
                } else if is_if {
                    self.parse_if_else()
                } else if is_declaration {
                    self.parse_variable_declaration()
                } else {
                    let expression = self.parse_expression()?;
                    self.expect(&Token::Semicolon)?;
                    let statement = Statement::Expression(expression);
                    proof {
                        lemma_statement_view(statement);
                    }
                    Ok(statement)
                }
            },
        }
    }
}

/// What a parse shows: its declarations or its error, by value.
pub open spec fn parse_outcome(result: Result<Vec<Declaration>, ParseError>) -> Result<
    Seq<DeclarationView>,
    ParseErrorView,
> {
    match result {
        Ok(declarations) => Ok(declarations_view(declarations@)),
        Err(e) => Err(e@),
    }
}

/// True when `result` is what parsing the program `ts` gives.
pub open spec fn is_parsed(ts: Seq<TokenView>, result: Result<Vec<Declaration>, ParseError>) -> bool {
    parse_outcome(result) == program_of(ts)
}

/// Parsing is a function of the tokens alone: whatever two parses of the
/// same tokens give, a tree or an error, they give the same, scope
/// identifiers included. The counter of scopes starts anew with every
/// parse.
pub proof fn lemma_parse_twice(
    ts: Seq<TokenView>,
    first: Result<Vec<Declaration>, ParseError>,
    second: Result<Vec<Declaration>, ParseError>,
)
    requires
        is_parsed(ts, first),
        is_parsed(ts, second),
    ensures
        parse_outcome(first) == parse_outcome(second),
{
}

/// Tells whether `tokens` has the outline that [`parse`] asks for: it starts
/// with `int main()`, ends with a closing brace, and is short enough for
/// every scope to get an identifier.
pub fn has_main_shape(tokens: &Vec<Token>) -> (shaped: bool)
    ensures
        shaped == (has_main_outline(token_views(tokens@)) && tokens@.len() <= u32::MAX),
{
    let n = tokens.len();
    if n < 5 || n > 0xffff_ffff {
        return false;
    }
    let ghost ts = token_views(tokens@);
    let starts = Token::Keyword("int").same_as(&tokens[0]) && Token::Identifier("main").same_as(
        &tokens[1],
    ) && Token::OpenParen.same_as(&tokens[2]) && Token::CloseParen.same_as(&tokens[3]);
    let ends = Token::CloseBrace.same_as(&tokens[n - 1]);
    proof {
        let prefix = ts.subrange(0, 4);
        if starts {
            assert(prefix =~= main_prefix());
        }
    }
    starts && ends
}

/// Parses the program `tokens`: the function `main` and nothing else.
///
/// The tokens must have the outline of a program, `int main()` in front and
/// a closing brace at the end. The body between is read as a block of
/// statements; it becomes the scope of `main`, numbered after every scope
/// nested in it. The first token that does not fit ends the parse with an
/// error; so does a token after the brace that closes the body.
///
/// In the tree of a program the scopes have the identifiers from 1 to their
/// number, each once, and every scope has a greater identifier than the
/// scopes nested in it.
pub fn parse<'a>(tokens: &Vec<Token<'a>>) -> (result: Result<Vec<Declaration>, ParseError<'a>>)
    requires
        has_main_outline(token_views(tokens@)),
        tokens@.len() <= u32::MAX,
    ensures
        result matches Ok(declarations) ==> {
            &&& declarations@.len() == 1
            &&& numbered_from_one(declarations@[0]@->scope)
        },
        is_parsed(token_views(tokens@), result),
{
    let function_body_tokens = slice_subrange(tokens.as_slice(), 4, tokens.len());
    assert(token_views(function_body_tokens@) =~= token_views(tokens@).subrange(
        4,
        tokens@.len() as int,
    ));
    let mut parser = Parser::new(function_body_tokens);

    let function_body = parser.parse_brace_block()?;
    if let Some(token) = parser.peek() {
        return Err(ParseError::UnexpectedToken { found: Some(token), position: parser.pos });
    }
    proof {
        lemma_block_numbering(token_views(function_body_tokens@), 0, 0);
    }
    let scope = Scope::from_statements(function_body, &mut parser.scope_id_counter);

    let mut declarations: Vec<Declaration> = Vec::new();
    declarations.push(
        Declaration::Function {
            name: "main".to_owned(),
            args: Vec::new(),
            return_type: Type::Int,
            scope,
        },
    );
    proof {
        let views = declarations_view(declarations@);
        assert(var_infos_view(Seq::<VarInfo>::empty()) =~= Seq::<VarInfoView>::empty());
        assert(views =~= seq![views[0]]);
    }
    Ok(declarations)
}

} // verus!
