//! The lowering pass: the syntax tree of `main` to a control-flow graph of
//! three-address instructions.
//!
//! Source variables are renamed to generated names `v1`, `v2`, ... in the
//! order in which they are met. The graph maps block identifiers to blocks;
//! without branches there is one block, block 0.

use crate::ast;
use crate::ast::{lemma_statements_view_index, statement_view, DeclarationView, ExprView, TypeView};
use crate::text::{decimal, decimal_string, lemma_decimal_round_trip, str_same};
use std::collections::HashMap;
use vstd::pervasive::unreached;
use vstd::prelude::*;
use vstd::string::*;

verus! {

broadcast use vstd::std_specs::hash::group_hash_axioms;

/// The name of a variable in the graph.
pub type CfgVarName = String;

/// The identifier of a block of the graph.
pub type ControlBlockId = u64;

/// A block of the graph: instructions in the order in which they run.
pub type ControlBlock = Vec<Statement>;

/// An arithmetic operator of the graph.
#[derive(Debug, PartialEq, Eq, Clone, Copy, Structural)]
pub enum BinOp {
    Add,
    Sub,
    Mul,
    Div,
}

/// An instruction of the graph.
#[derive(Debug, PartialEq)]
pub enum Statement {
    /// Go on with another block.
    Goto(ControlBlockId),
    /// Give a variable a value.
    Assign { var: CfgVarName, value: u64 },
    /// Apply an operator to two variables and give the result to a third.
    Operation { dest: CfgVarName, op: BinOp, lhs: CfgVarName, rhs: CfgVarName },
    /// Return the value of a variable.
    Return(CfgVarName),
}

/// The value of an instruction.
pub enum StatementView {
    Goto(u64),
    Assign { var: Seq<char>, value: u64 },
    Operation { dest: Seq<char>, op: BinOp, lhs: Seq<char>, rhs: Seq<char> },
    Return(Seq<char>),
}

impl View for Statement {
    type V = StatementView;

    open spec fn view(&self) -> StatementView {
        match self {
            Statement::Goto(block) => StatementView::Goto(*block),
            Statement::Assign { var, value } => StatementView::Assign { var: var@, value: *value },
            Statement::Operation { dest, op, lhs, rhs } => StatementView::Operation {
                dest: dest@,
                op: *op,
                lhs: lhs@,
                rhs: rhs@,
            },
            Statement::Return(var) => StatementView::Return(var@),
        }
    }
}

/// The values of a sequence of instructions, one for one.
pub open spec fn block_view(block: Seq<Statement>) -> Seq<StatementView> {
    block.map_values(|s: Statement| s@)
}

/// Why a statement could not be lowered.
#[derive(Debug, PartialEq)]
pub enum LoweringError {
    /// Only declarations and `return` statements are lowered so far.
    NotImplemented,
    /// A declaration was asked for and another statement given.
    ExpectedVarDeclare,
    /// The initializer of a declaration is not a number.
    ExpectedIntLiteral,
    /// A `return` statement was asked for and another statement given, or
    /// what is returned is neither a number nor a variable.
    UnsupportedReturn,
    /// A variable is returned that no statement before has declared.
    UnboundVariable(String),
}

/// The value of a [`LoweringError`].
pub enum LoweringErrorView {
    NotImplemented,
    ExpectedVarDeclare,
    ExpectedIntLiteral,
    UnsupportedReturn,
    UnboundVariable(Seq<char>),
}

impl View for LoweringError {
    type V = LoweringErrorView;

    open spec fn view(&self) -> LoweringErrorView {
        match self {
            LoweringError::NotImplemented => LoweringErrorView::NotImplemented,
            LoweringError::ExpectedVarDeclare => LoweringErrorView::ExpectedVarDeclare,
            LoweringError::ExpectedIntLiteral => LoweringErrorView::ExpectedIntLiteral,
            LoweringError::UnsupportedReturn => LoweringErrorView::UnsupportedReturn,
            LoweringError::UnboundVariable(name) => LoweringErrorView::UnboundVariable(name@),
        }
    }
}

/// The text of a [`LoweringError`].
pub open spec fn lowering_error_text(error: LoweringErrorView) -> Seq<char> {
    match error {
        LoweringErrorView::NotImplemented => "Not Implemented"@,
        LoweringErrorView::ExpectedVarDeclare => "Expected a VarDeclare"@,
        LoweringErrorView::ExpectedIntLiteral => "Expected an IntLiteral"@,
        LoweringErrorView::UnsupportedReturn => "Unsupported return value"@,
        LoweringErrorView::UnboundVariable(name) => "Unbound variable "@ + name,
    }
}

impl LoweringError {
    /// The error in words.
    pub fn message(&self) -> (text: String)
        ensures
            text@ == lowering_error_text(self@),
    {
        match self {
            LoweringError::NotImplemented => String::from_str("Not Implemented"),
            LoweringError::ExpectedVarDeclare => String::from_str("Expected a VarDeclare"),
            LoweringError::ExpectedIntLiteral => String::from_str("Expected an IntLiteral"),
            LoweringError::UnsupportedReturn => String::from_str("Unsupported return value"),
            LoweringError::UnboundVariable(name) => {
                let mut text = String::from_str("Unbound variable ");
                text.append(name.as_str());
                text
            },
        }
    }
}

/// The `n`-th generated name: the letter `v` and `n` in decimal notation.
pub open spec fn cfg_name(n: nat) -> Seq<char> {
    seq!['v'] + decimal(n)
}

/// Generated names with different numbers are different names.
pub proof fn lemma_generated_names_differ(a: nat, b: nat)
    requires
        a != b,
    ensures
        cfg_name(a) != cfg_name(b),
{
    lemma_decimal_round_trip(a);
    lemma_decimal_round_trip(b);
    if cfg_name(a) == cfg_name(b) {
        assert(cfg_name(a).subrange(1, cfg_name(a).len() as int) =~= decimal(a));
        assert(cfg_name(b).subrange(1, cfg_name(b).len() as int) =~= decimal(b));
    }
}

/// The value of a [`CFGBuildContext`].
pub struct ContextView {
    /// The number of names generated so far.
    pub counter: nat,
    /// The generated name of each source variable declared so far.
    pub names: Map<Seq<char>, Seq<char>>,
}

/// The context before anything is lowered.
pub open spec fn empty_context() -> ContextView {
    ContextView { counter: 0, names: Map::empty() }
}

/// `context` after one more name has been generated.
pub open spec fn counted(context: ContextView) -> ContextView {
    ContextView { counter: context.counter + 1, names: context.names }
}

/// `context` after the source variable `var` has been given the next
/// generated name.
pub open spec fn registered(context: ContextView, var: Seq<char>) -> ContextView {
    ContextView {
        counter: context.counter + 1,
        names: context.names.insert(var, cfg_name(context.counter + 1)),
    }
}

/// Instructions or an error, with the context left behind.
pub struct Lowered {
    pub result: Result<Seq<StatementView>, LoweringErrorView>,
    pub context: ContextView,
}

/// What a declaration lowers to: the variable gets the next generated name.
/// Where a number initializes the variable, that name is assigned the
/// number; where nothing initializes it, no instruction is made. Another
/// initializer is an error, after the variable has got its name.
pub open spec fn lowered_var_declare(statement: ast::StatementView, context: ContextView) -> Lowered {
    match statement {
        ast::StatementView::VarDeclare { name, var_type, value } => {
            let after = registered(context, name);
            let var = cfg_name(after.counter);
            match value {
                None => Lowered { result: Ok(Seq::empty()), context: after },
                Some(ExprView::IntLiteral(v)) => Lowered {
                    result: Ok(seq![StatementView::Assign { var, value: v }]),
                    context: after,
                },
                Some(_) => Lowered {
                    result: Err(LoweringErrorView::ExpectedIntLiteral),
                    context: after,
                },
            }
        },
        _ => Lowered { result: Err(LoweringErrorView::ExpectedVarDeclare), context },
    }
}

/// What a `return` statement lowers to. A number is assigned to the next
/// generated name, and that name returned. A variable is returned under the
/// name it got when it was declared; no name is generated.
pub open spec fn lowered_return(statement: ast::StatementView, context: ContextView) -> Lowered {
    match statement {
        ast::StatementView::Return(ExprView::IntLiteral(i)) => {
            let after = counted(context);
            let var = cfg_name(after.counter);
            Lowered {
                result: Ok(
                    seq![StatementView::Assign { var, value: i }, StatementView::Return(var)],
                ),
                context: after,
            }
        },
        ast::StatementView::Return(ExprView::Variable(name)) => {
            if context.names.contains_key(name) {
                Lowered { result: Ok(seq![StatementView::Return(context.names[name])]), context }
            } else {
                Lowered { result: Err(LoweringErrorView::UnboundVariable(name)), context }
            }
        },
        _ => Lowered { result: Err(LoweringErrorView::UnsupportedReturn), context },
    }
}

/// What a statement lowers to.
pub open spec fn lowered_statement(statement: ast::StatementView, context: ContextView) -> Lowered {
    match statement {
        ast::StatementView::VarDeclare { .. } => lowered_var_declare(statement, context),
        ast::StatementView::Return(_) => lowered_return(statement, context),
        _ => Lowered { result: Err(LoweringErrorView::NotImplemented), context },
    }
}

/// What a sequence of statements lowers to, from the context `context`: the
/// instructions of each statement in order, or the first error.
pub open spec fn lowered_block(statements: Seq<ast::StatementView>, context: ContextView) -> Lowered
    decreases statements.len(),
{
    if statements.len() == 0 {
        Lowered { result: Ok(Seq::empty()), context }
    } else {
        let before = lowered_block(statements.drop_last(), context);
        match before.result {
            Err(_) => before,
            Ok(head) => {
                let last = lowered_statement(statements.last(), before.context);
                match last.result {
                    Err(_) => last,
                    Ok(tail) => Lowered { result: Ok(head + tail), context: last.context },
                }
            },
        }
    }
}

/// True when `declaration` is what the lowering pass takes: a function
/// `main` without arguments that returns an integer.
pub open spec fn is_main(declaration: DeclarationView) -> bool {
    &&& declaration->name == "main"@
    &&& declaration->args.len() == 0
    &&& declaration->return_type == TypeView::Int
}

/// The graph of the function `declaration`: its statements lowered into
/// block 0.
pub open spec fn graph_of(declaration: DeclarationView) -> Result<
    Map<u64, Seq<StatementView>>,
    LoweringErrorView,
> {
    match lowered_block(declaration->scope.statements, empty_context()).result {
        Ok(block) => Ok(Map::empty().insert(0u64, block)),
        Err(e) => Err(e),
    }
}

/// A source variable with its generated name.
#[derive(Debug)]
struct Binding {
    source: String,
    name: CfgVarName,
}

/// The map that a list of bindings stands for: each binding in turn is put
/// under its source variable, so a later binding replaces an earlier one.
spec fn names_of(bindings: Seq<Binding>) -> Map<Seq<char>, Seq<char>>
    decreases bindings.len(),
{
    if bindings.len() == 0 {
        Map::empty()
    } else {
        names_of(bindings.drop_last()).insert(bindings.last().source@, bindings.last().name@)
    }
}

/// What the lowering pass keeps between statements: how many names it has
/// generated, and the generated name of each source variable. The names are
/// kept as a list in which a later binding replaces an earlier one: they are
/// found under a string, which no hash map can be keyed by and still be
/// reasoned about.
#[derive(Debug)]
pub struct CFGBuildContext {
    var_counter: u64,
    var_map: Vec<Binding>,
}

impl View for CFGBuildContext {
    type V = ContextView;

    closed spec fn view(&self) -> ContextView {
        ContextView { counter: self.var_counter as nat, names: names_of(self.var_map@) }
    }
}

impl CFGBuildContext {
    /// The context before anything is lowered.
    pub fn new() -> (context: Self)
        ensures
            context@ == empty_context(),
    {
        CFGBuildContext { var_counter: 0, var_map: Vec::new() }
    }

    /// Generates the next name.
    pub fn inc(&mut self) -> (name: CfgVarName)
        requires
            old(self)@.counter < u64::MAX,
        ensures
            final(self)@ == counted(old(self)@),
            name@ == cfg_name(final(self)@.counter),
    {
        self.var_counter += 1;
        let mut name = String::from_str("v");
        proof {
            reveal_strlit("v");
        }
        let digits = decimal_string(self.var_counter);
        name.append(digits.as_str());
        name
    }

    /// Gives the source variable `var` the next generated name. A name that
    /// the variable had before is forgotten.
    pub fn register_var(&mut self, var: CfgVarName)
        requires
            old(self)@.counter < u64::MAX,
        ensures
            final(self)@ == registered(old(self)@, var@),
    {
        let a = self.inc();
        let ghost before = self.var_map@;
        self.var_map.push(Binding { source: var, name: a });
        assert(self.var_map@.drop_last() =~= before);
    }

    /// The generated name of the source variable `var`, if it has one.
    pub fn lookup(&self, var: &String) -> (found: Option<&CfgVarName>)
        ensures
            match found {
                Some(name) => self@.names.contains_key(var@) && self@.names[var@] == name@,
                None => !self@.names.contains_key(var@),
            },
    {
        let mut i = self.var_map.len();
        assert(self.var_map@.take(i as int) =~= self.var_map@);
        while i > 0
            invariant
                i <= self.var_map.len(),
                names_of(self.var_map@).contains_key(var@) == names_of(
                    self.var_map@.take(i as int),
                ).contains_key(var@),
                names_of(self.var_map@)[var@] == names_of(self.var_map@.take(i as int))[var@],
            decreases i,
        {
            assert(self.var_map@.take(i as int).drop_last() =~= self.var_map@.take(i - 1));
            i -= 1;
            if str_same(self.var_map[i].source.as_str(), var.as_str()) {
                return Some(&self.var_map[i].name);
            }
        }
        None
    }
}

/// True when `result` and `context` are what `expected` says.
pub open spec fn is_lowered(
    result: Result<Vec<Statement>, LoweringError>,
    context: ContextView,
    expected: Lowered,
) -> bool {
    &&& context == expected.context
    &&& match result {
        Ok(block) => expected.result == Ok::<Seq<StatementView>, LoweringErrorView>(
            block_view(block@),
        ),
        Err(e) => expected.result == Err::<Seq<StatementView>, LoweringErrorView>(e@),
    }
}

/// A control-flow graph: blocks of instructions by identifier. The block 0
/// is where the function starts.
#[derive(Debug, PartialEq)]
pub struct ControlFlowGraph(pub HashMap<ControlBlockId, ControlBlock>);

impl View for ControlFlowGraph {
    type V = Map<u64, Seq<StatementView>>;

    open spec fn view(&self) -> Map<u64, Seq<StatementView>> {
        self.0@.map_values(|block: ControlBlock| block_view(block@))
    }
}

impl ControlFlowGraph {
    /// The graph without blocks.
    pub fn new() -> (graph: Self)
        ensures
            graph@ == Map::<u64, Seq<StatementView>>::empty(),
    {
        let graph = ControlFlowGraph(HashMap::new());
        graph
    }

    /// Lowers the program `declarations`, which is the function `main`
    /// alone, into a graph of one block. The statements of `main` are
    /// lowered in order into block 0; the first that cannot be lowered is
    /// the error.
    pub fn from(declarations: &Vec<ast::Declaration>) -> (result: Result<Self, LoweringError>)
        requires
            declarations@.len() == 1,
            is_main(declarations@[0]@),
        ensures
            match result {
                Ok(graph) => graph_of(declarations@[0]@) == Ok::<
                    Map<u64, Seq<StatementView>>,
                    LoweringErrorView,
                >(graph@),
                Err(e) => graph_of(declarations@[0]@) == Err::<
                    Map<u64, Seq<StatementView>>,
                    LoweringErrorView,
                >(e@),
            },
    {
        match &declarations[0] {
            ast::Declaration::Function { name, args, return_type, scope } => {
                let ghost statements = scope@.statements;
                let mut context = CFGBuildContext::new();
                let mut block: ControlBlock = Vec::new();
                let n = scope.statements.len();
                let mut i: usize = 0;
                proof {
                    assert(block_view(block@) =~= Seq::<StatementView>::empty());
                }
                while i < n
                    invariant
                        i <= n == scope.statements.len(),
                        declarations@.len() == 1,
                        declarations@[0]@->scope.statements == statements,
                        statements == scope@.statements,
                        statements.len() == n,
                        context@.counter <= i,
                        lowered_block(statements.take(i as int), empty_context()) == (Lowered {
                            result: Ok(block_view(block@)),
                            context: context@,
                        }),
                    decreases n - i,
                {
                    let ghost done = block_view(block@);
                    proof {
                        lemma_statements_view_index(scope.statements@, i as int);
                        assert(statements.take(i + 1).drop_last() =~= statements.take(i as int));
                    }
                    let mut lowered = match ControlFlowGraph::process(
                        &scope.statements[i],
                        &mut context,
                    ) {
                        Ok(lowered) => lowered,
                        Err(e) => {
                            proof {
                                lemma_lowered_block_error(statements, empty_context(), i + 1);
                            }
                            return Err(e);
                        },
                    };
                    proof {
                        assert(block_view(block@ + lowered@) =~= done + block_view(lowered@));
                    }
                    block.append(&mut lowered);
                    i += 1;
                }
                proof {
                    assert(statements.take(n as int) =~= statements);
                }
                let mut graph = ControlFlowGraph::new();
                let ghost lowered = block_view(block@);
                graph.0.insert(0, block);
                assert(graph@ =~= Map::<u64, Seq<StatementView>>::empty().insert(0u64, lowered));
                Ok(graph)
            },
        }
    }

    /// Lowers one statement. Declarations and `return` statements are
    /// lowered; any other statement is not implemented.
    pub fn process(stmt: &ast::Statement, context: &mut CFGBuildContext) -> (result: Result<
        Vec<Statement>,
        LoweringError,
    >)
        requires
            old(context)@.counter < u64::MAX,
        ensures
            is_lowered(result, final(context)@, lowered_statement(stmt@, old(context)@)),
            final(context)@.counter <= old(context)@.counter + 1,
    {
        match stmt {
            ast::Statement::VarDeclare { .. } => {
                assert(stmt@ is VarDeclare) by {
                    reveal(statement_view);
                }
                ControlFlowGraph::process_var_declare(stmt, context)
            },
            ast::Statement::Return(..) => {
                assert(stmt@ is Return) by {
                    reveal(statement_view);
                }
                ControlFlowGraph::process_return(stmt, context)
            },
            _ => {
                assert(!(stmt@ is Return) && !(stmt@ is VarDeclare)) by {
                    reveal(statement_view);
                }
                Err(LoweringError::NotImplemented)
            },
        }
    }

    /// Lowers a declaration: the variable gets the next generated name,
    /// which is assigned the number that initializes the variable, if one
    /// does.
    pub fn process_var_declare(stmt: &ast::Statement, context: &mut CFGBuildContext) -> (result:
        Result<Vec<Statement>, LoweringError>)
        requires
            old(context)@.counter < u64::MAX,
        ensures
            is_lowered(result, final(context)@, lowered_var_declare(stmt@, old(context)@)),
            final(context)@.counter <= old(context)@.counter + 1,
    {
        if let ast::Statement::VarDeclare { name, var_type, value } = stmt {
            assert(stmt@ == ast::StatementView::VarDeclare {
                name: name@,
                var_type: var_type@,
                value: match value {
                    Some(e) => Some(e@),
                    None => None,
                },
            }) by {
                reveal(statement_view);
            }
            context.register_var(name.clone());
            let cfg_var_name = match context.lookup(name) {
                Some(cfg_var_name) => cfg_var_name.clone(),
                None => unreached(),
            };
            let mut block: Vec<Statement> = Vec::new();
            match value {
                None => {
                    assert(block_view(block@) =~= Seq::<StatementView>::empty());
                },
                Some(ast::Expr::IntLiteral(v)) => {
                    block.push(Statement::Assign { var: cfg_var_name, value: *v });
                    assert(block_view(block@) =~= seq![block@[0]@]);
                },
                Some(_) => {
                    return Err(LoweringError::ExpectedIntLiteral);
                },
            }
            return Ok(block);
        }
        assert(!(stmt@ is VarDeclare)) by {
            reveal(statement_view);
        }
        Err(LoweringError::ExpectedVarDeclare)
    }

    /// Lowers a `return` statement. A number is assigned to the next
    /// generated name and that name returned; a variable is returned under
    /// the name it has.
    pub fn process_return(stmt: &ast::Statement, context: &mut CFGBuildContext) -> (result: Result<
        Vec<Statement>,
        LoweringError,
    >)
        requires
            old(context)@.counter < u64::MAX,
        ensures
            is_lowered(result, final(context)@, lowered_return(stmt@, old(context)@)),
            final(context)@.counter <= old(context)@.counter + 1,
    {
        if let ast::Statement::Return(expr) = stmt {
            assert(stmt@ == ast::StatementView::Return(expr@)) by {
                reveal(statement_view);
            }
            match expr {
                ast::Expr::IntLiteral(i) => {
                    let cfg_var_name = context.inc();
                    let mut block: Vec<Statement> = Vec::new();
                    block.push(Statement::Assign { var: cfg_var_name.clone(), value: *i });
                    block.push(Statement::Return(cfg_var_name));
                    assert(block_view(block@) =~= seq![block@[0]@, block@[1]@]);
                    return Ok(block);
                },
                ast::Expr::Variable(var_name) => {
                    match context.lookup(var_name) {
                        Some(cfg_var_name) => {
                            let mut block: Vec<Statement> = Vec::new();
                            block.push(Statement::Return(cfg_var_name.clone()));
                            assert(block_view(block@) =~= seq![block@[0]@]);
                            return Ok(block);
                        },
                        None => {
                            return Err(LoweringError::UnboundVariable(var_name.clone()));
                        },
                    }
                },
                _ => {
                    return Err(LoweringError::UnsupportedReturn);
                },
            }
        }
        assert(!(stmt@ is Return)) by {
            reveal(statement_view);
        }
        Err(LoweringError::UnsupportedReturn)
    }
}

/// Once a prefix of the statements fails to lower, so does every longer
/// one, with the same error and the same context.
proof fn lemma_lowered_block_error(
    statements: Seq<ast::StatementView>,
    context: ContextView,
    k: int,
)
    requires
        0 <= k <= statements.len(),
        lowered_block(statements.take(k), context).result is Err,
    ensures
        lowered_block(statements, context) == lowered_block(statements.take(k), context),
    decreases statements.len() - k,
{
    if k == statements.len() {
        assert(statements.take(k) =~= statements);
    } else {
        assert(statements.take(k + 1).drop_last() =~= statements.take(k));
        lemma_lowered_block_error(statements, context, k + 1);
    }
}

} // verus!
