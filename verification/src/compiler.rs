//! The whole pipeline: source text to lines of assembly.
//!
//! Each stage hands its output to the next; the first stage that fails ends
//! the compilation with its error. Nothing is kept between two compilations.

use crate::cfg::{
    graph_of, lowering_error_text, ControlFlowGraph, LoweringError, LoweringErrorView,
};
use crate::codegen::{
    asm_of, cfg_to_asm, codegen_error_text, lines_view, CodegenError, CodegenErrorView,
};
use crate::parser::{
    has_main_outline, has_main_shape, parse, parse_error_text, program_of, ParseError,
    ParseErrorView,
};
use crate::symantic_check::{
    check_syntax, checked, semantic_error_text, SemanticError, SemanticErrorView,
};
use crate::tokenizer::{
    lex, token_views, tokenize, tokenize_error_text, Token, TokenView, TokenizeError,
};
use vstd::prelude::*;
use vstd::string::*;

verus! {

/// Why a source text could not be compiled: the error of the stage that
/// failed.
#[derive(Debug, PartialEq)]
pub enum CompileError<'a> {
    Tokenize(TokenizeError),
    /// The tokens do not start with `int main()` and end with a closing
    /// brace, or there are more of them than scopes can be numbered.
    NotMain,
    Parse(ParseError<'a>),
    Semantic(SemanticError),
    Lowering(LoweringError),
    Codegen(CodegenError),
}

/// The value of a [`CompileError`].
pub enum CompileErrorView {
    Tokenize(TokenizeError),
    NotMain,
    Parse(ParseErrorView),
    Semantic(SemanticErrorView),
    Lowering(LoweringErrorView),
    Codegen(CodegenErrorView),
}

impl<'a> View for CompileError<'a> {
    type V = CompileErrorView;

    open spec fn view(&self) -> CompileErrorView {
        match self {
            CompileError::Tokenize(e) => CompileErrorView::Tokenize(*e),
            CompileError::NotMain => CompileErrorView::NotMain,
            CompileError::Parse(e) => CompileErrorView::Parse(e@),
            CompileError::Semantic(e) => CompileErrorView::Semantic(e@),
            CompileError::Lowering(e) => CompileErrorView::Lowering(e@),
            CompileError::Codegen(e) => CompileErrorView::Codegen(e@),
        }
    }
}

/// The text of a [`CompileError`]: that of the stage that failed.
pub open spec fn compile_error_text(error: CompileErrorView) -> Seq<char> {
    match error {
        CompileErrorView::Tokenize(e) => tokenize_error_text(e),
        CompileErrorView::NotMain => "Expected a program of the form int main() { ... }"@,
        CompileErrorView::Parse(e) => parse_error_text(e),
        CompileErrorView::Semantic(e) => semantic_error_text(e),
        CompileErrorView::Lowering(e) => lowering_error_text(e),
        CompileErrorView::Codegen(e) => codegen_error_text(e),
    }
}

impl<'a> CompileError<'a> {
    /// The error in words.
    pub fn message(&self) -> (text: String)
        ensures
            text@ == compile_error_text(self@),
    {
        match self {
            CompileError::Tokenize(e) => e.message(),
            CompileError::NotMain => String::from_str(
                "Expected a program of the form int main() { ... }",
            ),
            CompileError::Parse(e) => e.message(),
            CompileError::Semantic(e) => e.message(),
            CompileError::Lowering(e) => e.message(),
            CompileError::Codegen(e) => e.message(),
        }
    }
}

/// The assembly of the program `tokens`, or the error of the first stage
/// that fails: the check of the outline, the parser, the semantic check, the
/// lowering pass, the code generator.
pub open spec fn compiled_tokens(tokens: Seq<TokenView>) -> Result<
    Seq<Seq<char>>,
    CompileErrorView,
> {
    if !(has_main_outline(tokens) && tokens.len() <= u32::MAX) {
        Err(CompileErrorView::NotMain)
    } else {
        match program_of(tokens) {
            Err(e) => Err(CompileErrorView::Parse(e)),
            Ok(declarations) => match checked(declarations[0]) {
                Err(e) => Err(CompileErrorView::Semantic(e)),
                Ok(_) => match graph_of(declarations[0]) {
                    Err(e) => Err(CompileErrorView::Lowering(e)),
                    Ok(graph) => match asm_of(graph) {
                        Err(e) => Err(CompileErrorView::Codegen(e)),
                        Ok(lines) => Ok(lines),
                    },
                },
            },
        }
    }
}

/// The assembly of the source text `source`, or the error of the first
/// stage that fails: the lexer, or one of the stages after it.
pub open spec fn compiled(source: Seq<char>) -> Result<Seq<Seq<char>>, CompileErrorView> {
    match lex(source) {
        Err(e) => Err(CompileErrorView::Tokenize(e)),
        Ok(tokens) => compiled_tokens(tokens),
    }
}

/// True when `result` shows `expected`.
pub open spec fn shows(
    result: Result<Vec<String>, CompileError>,
    expected: Result<Seq<Seq<char>>, CompileErrorView>,
) -> bool {
    match result {
        Ok(lines) => expected == Ok::<Seq<Seq<char>>, CompileErrorView>(lines_view(lines@)),
        Err(e) => expected == Err::<Seq<Seq<char>>, CompileErrorView>(e@),
    }
}

/// True when `result` is what compiling `source` gives.
pub open spec fn is_compiled(source: Seq<char>, result: Result<Vec<String>, CompileError>) -> bool {
    shows(result, compiled(source))
}

/// What a run of the compiler shows: its lines or its error, by value.
pub open spec fn outcome(result: Result<Vec<String>, CompileError>) -> Result<
    Seq<Seq<char>>,
    CompileErrorView,
> {
    match result {
        Ok(lines) => Ok(lines_view(lines@)),
        Err(e) => Err(e@),
    }
}

/// Compiles the program `tokens` to assembly.
///
/// The tokens are parsed as the function `main`, its variables are checked,
/// its statements are lowered into a graph of one block, and the graph is
/// written out as assembly. The first stage that fails gives the error.
/// Tokens that are not of the outline `int main() ... }` are refused before
/// they are parsed.
pub fn compile_tokens<'a>(tokens: &Vec<Token<'a>>) -> (result: Result<
    Vec<String>,
    CompileError<'a>,
>)
    ensures
        shows(result, compiled_tokens(token_views(tokens@))),
{
    if !has_main_shape(tokens) {
        return Err(CompileError::NotMain);
    }
    let declarations = match parse(tokens) {
        Ok(declarations) => declarations,
        Err(e) => {
            return Err(CompileError::Parse(e));
        },
    };
    match check_syntax(&declarations) {
        Ok(_) => {},
        Err(e) => {
            return Err(CompileError::Semantic(e));
        },
    }
    let graph = match ControlFlowGraph::from(&declarations) {
        Ok(graph) => graph,
        Err(e) => {
            return Err(CompileError::Lowering(e));
        },
    };
    match cfg_to_asm(&graph) {
        Ok(lines) => Ok(lines),
        Err(e) => Err(CompileError::Codegen(e)),
    }
}

/// Compiles the source text `source` to assembly: the text is split into
/// tokens, and the tokens are compiled by [`compile_tokens`].
pub fn compile<'a>(source: &'a str) -> (result: Result<Vec<String>, CompileError<'a>>)
    ensures
        is_compiled(source@, result),
{
    match tokenize(source) {
        Ok(tokens) => compile_tokens(&tokens),
        Err(e) => Err(CompileError::Tokenize(e)),
    }
}

/// Compiling is a function of the source text alone: whatever two runs on
/// the same text give, lines or an error, they give the same.
pub proof fn lemma_compile_twice(
    source: Seq<char>,
    first: Result<Vec<String>, CompileError>,
    second: Result<Vec<String>, CompileError>,
)
    requires
        is_compiled(source, first),
        is_compiled(source, second),
    ensures
        outcome(first) == outcome(second),
{
}

} // verus!
