//! The code generator: a control-flow graph to lines of assembly.
//!
//! Generated variables live in registers, by a fixed table of five names.
//! There is no spilling: a sixth variable is an error.

use crate::cfg::{block_view, CfgVarName, ControlFlowGraph, Statement, StatementView};
use crate::text::{decimal, decimal_string, str_same};
use vstd::pervasive::unreached;
use vstd::prelude::*;
use vstd::string::*;

verus! {

broadcast use vstd::std_specs::hash::group_hash_axioms;

/// A general-purpose register that can hold a variable.
#[derive(Debug, PartialEq, Eq, Clone, Copy, Structural)]
pub enum RegisterGP {
    RBX,
    RCX,
    RDX,
    R8,
    R9,
    R10,
    R11,
    R12,
    R13,
    R14,
    R15,
}

/// Why a graph could not be turned into assembly.
#[derive(Debug, PartialEq)]
pub enum CodegenError {
    /// The variable has no register.
    UnmappedVariable(String),
    /// Only assignments and returns are emitted so far.
    UnsupportedStatement,
}

/// The value of a [`CodegenError`].
pub enum CodegenErrorView {
    UnmappedVariable(Seq<char>),
    UnsupportedStatement,
}

impl View for CodegenError {
    type V = CodegenErrorView;

    open spec fn view(&self) -> CodegenErrorView {
        match self {
            CodegenError::UnmappedVariable(var) => CodegenErrorView::UnmappedVariable(var@),
            CodegenError::UnsupportedStatement => CodegenErrorView::UnsupportedStatement,
        }
    }
}

/// The text of a [`CodegenError`].
pub open spec fn codegen_error_text(error: CodegenErrorView) -> Seq<char> {
    match error {
        CodegenErrorView::UnmappedVariable(var) => "Could not map var "@ + var,
        CodegenErrorView::UnsupportedStatement => "Unsupported statement"@,
    }
}

impl CodegenError {
    /// The error in words.
    pub fn message(&self) -> (text: String)
        ensures
            text@ == codegen_error_text(self@),
    {
        match self {
            CodegenError::UnmappedVariable(var) => {
                let mut text = String::from_str("Could not map var ");
                text.append(var.as_str());
                text
            },
            CodegenError::UnsupportedStatement => String::from_str("Unsupported statement"),
        }
    }
}

/// The values of a sequence of lines, one for one.
pub open spec fn lines_view(lines: Seq<String>) -> Seq<Seq<char>> {
    lines.map_values(|line: String| line@)
}

/// The name of a register as the assembler writes it, without the percent
/// sign.
pub open spec fn register_name(register: RegisterGP) -> Seq<char> {
    match register {
        RegisterGP::RBX => "rbx"@,
        RegisterGP::RCX => "rcx"@,
        RegisterGP::RDX => "rdx"@,
        RegisterGP::R8 => "r8"@,
        RegisterGP::R9 => "r9"@,
        RegisterGP::R10 => "r10"@,
        RegisterGP::R11 => "r11"@,
        RegisterGP::R12 => "r12"@,
        RegisterGP::R13 => "r13"@,
        RegisterGP::R14 => "r14"@,
        RegisterGP::R15 => "r15"@,
    }
}

/// The register of a generated variable: `v1` to `v5` have one, no other
/// name has.
pub open spec fn register_of(var: Seq<char>) -> Option<RegisterGP> {
    if var == "v1"@ {
        Some(RegisterGP::RBX)
    } else if var == "v2"@ {
        Some(RegisterGP::RCX)
    } else if var == "v3"@ {
        Some(RegisterGP::RDX)
    } else if var == "v4"@ {
        Some(RegisterGP::R8)
    } else if var == "v5"@ {
        Some(RegisterGP::R9)
    } else {
        None
    }
}

/// The line that moves the number `value` into `register`.
pub open spec fn assign_line(value: u64, register: RegisterGP) -> Seq<char> {
    "mov $"@ + decimal(value as nat) + ", %"@ + register_name(register)
}

/// The line that moves `register` into the register of the result.
pub open spec fn return_line(register: RegisterGP) -> Seq<char> {
    "mov %"@ + register_name(register) + ", %rax"@
}

/// The two lines that open the assembly of `main`.
pub open spec fn asm_header() -> Seq<Seq<char>> {
    seq![".global main"@, "main:"@]
}

/// The lines of one instruction: a move for an assignment and for a return.
pub open spec fn asm_of_statement(statement: StatementView) -> Result<
    Seq<Seq<char>>,
    CodegenErrorView,
> {
    match statement {
        StatementView::Assign { var, value } => match register_of(var) {
            Some(register) => Ok(seq![assign_line(value, register)]),
            None => Err(CodegenErrorView::UnmappedVariable(var)),
        },
        StatementView::Return(var) => match register_of(var) {
            Some(register) => Ok(seq![return_line(register)]),
            None => Err(CodegenErrorView::UnmappedVariable(var)),
        },
        _ => Err(CodegenErrorView::UnsupportedStatement),
    }
}

/// `lines` followed by the lines of the instructions of `block`, in order;
/// the first error if an instruction has none.
pub open spec fn asm_after(lines: Seq<Seq<char>>, block: Seq<StatementView>) -> Result<
    Seq<Seq<char>>,
    CodegenErrorView,
>
    decreases block.len(),
{
    if block.len() == 0 {
        Ok(lines)
    } else {
        match asm_after(lines, block.drop_last()) {
            Err(e) => Err(e),
            Ok(before) => match asm_of_statement(block.last()) {
                Err(e) => Err(e),
                Ok(last) => Ok(before + last),
            },
        }
    }
}

/// True when `graph` is one block with the identifier 0.
pub open spec fn is_single_block(graph: Map<u64, Seq<StatementView>>) -> bool {
    graph.dom() == set![0u64]
}

/// The assembly of a graph of one block: the header, then the lines of the
/// instructions of block 0.
pub open spec fn asm_of(graph: Map<u64, Seq<StatementView>>) -> Result<
    Seq<Seq<char>>,
    CodegenErrorView,
> {
    asm_after(asm_header(), graph[0])
}

impl RegisterGP {
    /// The name of the register as the assembler writes it, without the
    /// percent sign.
    pub fn name(&self) -> (name: &'static str)
        ensures
            name@ == register_name(*self),
    {
        match self {
            RegisterGP::RBX => "rbx",
            RegisterGP::RCX => "rcx",
            RegisterGP::RDX => "rdx",
            RegisterGP::R8 => "r8",
            RegisterGP::R9 => "r9",
            RegisterGP::R10 => "r10",
            RegisterGP::R11 => "r11",
            RegisterGP::R12 => "r12",
            RegisterGP::R13 => "r13",
            RegisterGP::R14 => "r14",
            RegisterGP::R15 => "r15",
        }
    }
}

/// The register that holds the generated variable `var`.
pub fn var_to_reg(var: &CfgVarName) -> (result: Result<RegisterGP, CodegenError>)
    ensures
        match result {
            Ok(register) => register_of(var@) == Some(register),
            Err(e) => register_of(var@) is None && e@ == CodegenErrorView::UnmappedVariable(var@),
        },
{
    let name = var.as_str();
    if str_same(name, "v1") {
        Ok(RegisterGP::RBX)
    } else if str_same(name, "v2") {
        Ok(RegisterGP::RCX)
    } else if str_same(name, "v3") {
        Ok(RegisterGP::RDX)
    } else if str_same(name, "v4") {
        Ok(RegisterGP::R8)
    } else if str_same(name, "v5") {
        Ok(RegisterGP::R9)
    } else {
        Err(CodegenError::UnmappedVariable(var.clone()))
    }
}

/// The assembly of an assignment: the number is moved into the register of
/// the variable.
pub fn assign_to_asm(var: &CfgVarName, value: u64) -> (result: Result<Vec<String>, CodegenError>)
    ensures
        match result {
            Ok(lines) => asm_of_statement(StatementView::Assign { var: var@, value }) == Ok::<
                Seq<Seq<char>>,
                CodegenErrorView,
            >(lines_view(lines@)),
            Err(e) => asm_of_statement(StatementView::Assign { var: var@, value }) == Err::<
                Seq<Seq<char>>,
                CodegenErrorView,
            >(e@),
        },
{
    let register = var_to_reg(var)?;
    let mut line = String::from_str("mov $");
    let digits = decimal_string(value);
    line.append(digits.as_str());
    line.append(", %");
    line.append(register.name());
    let mut lines: Vec<String> = Vec::new();
    lines.push(line);
    assert(lines_view(lines@) =~= seq![assign_line(value, register)]);
    Ok(lines)
}

/// The assembly of a return: the register of the variable is moved into the
/// register of the result.
pub fn return_to_asm(var: &CfgVarName) -> (result: Result<Vec<String>, CodegenError>)
    ensures
        match result {
            Ok(lines) => asm_of_statement(StatementView::Return(var@)) == Ok::<
                Seq<Seq<char>>,
                CodegenErrorView,
            >(lines_view(lines@)),
            Err(e) => asm_of_statement(StatementView::Return(var@)) == Err::<
                Seq<Seq<char>>,
                CodegenErrorView,
            >(e@),
        },
{
    let register = var_to_reg(var)?;
    let mut line = String::from_str("mov %");
    line.append(register.name());
    line.append(", %rax");
    let mut lines: Vec<String> = Vec::new();
    lines.push(line);
    assert(lines_view(lines@) =~= seq![return_line(register)]);
    Ok(lines)
}

/// Turns a graph of one block into assembly: the header `.global main` and
/// `main:`, then one line for each instruction of block 0, in order. An
/// instruction that is neither an assignment nor a return, or a variable
/// without a register, ends the work with an error.
pub fn cfg_to_asm(cfg: &ControlFlowGraph) -> (result: Result<Vec<String>, CodegenError>)
    requires
        is_single_block(cfg@),
    ensures
        match result {
            Ok(lines) => asm_of(cfg@) == Ok::<Seq<Seq<char>>, CodegenErrorView>(lines_view(lines@)),
            Err(e) => asm_of(cfg@) == Err::<Seq<Seq<char>>, CodegenErrorView>(e@),
        },
{
    assert(cfg@.dom().contains(0u64));
    let block = match cfg.0.get(&0) {
        Some(block) => block,
        None => unreached(),
    };
    let ghost instructions = block_view(block@);
    let mut output: Vec<String> = Vec::new();
    output.push(String::from_str(".global main"));
    output.push(String::from_str("main:"));
    assert(lines_view(output@) =~= asm_header());
    let n = block.len();
    let mut i: usize = 0;
    while i < n
        invariant
            i <= n == block.len(),
            instructions == block_view(block@),
            cfg@[0u64] == instructions,
            asm_after(asm_header(), instructions.take(i as int)) == Ok::<
                Seq<Seq<char>>,
                CodegenErrorView,
            >(lines_view(output@)),
        decreases n - i,
    {
        let ghost done = lines_view(output@);
        proof {
            assert(instructions.take(i + 1).drop_last() =~= instructions.take(i as int));
        }
        let step = match &block[i] {
            Statement::Assign { var, value } => assign_to_asm(var, *value),
            Statement::Return(var) => return_to_asm(var),
            _ => Err(CodegenError::UnsupportedStatement),
        };
        let mut statement_asm = match step {
            Ok(lines) => lines,
            Err(e) => {
                proof {
                    lemma_asm_after_error(asm_header(), instructions, i + 1);
                }
                return Err(e);
            },
        };
        proof {
            assert(lines_view(output@ + statement_asm@) =~= done + lines_view(statement_asm@));
        }
        output.append(&mut statement_asm);
        i += 1;
    }
    assert(instructions.take(n as int) =~= instructions);
    Ok(output)
}

/// Once a prefix of the instructions has no assembly, neither has any
/// longer one, for the same reason.
proof fn lemma_asm_after_error(lines: Seq<Seq<char>>, block: Seq<StatementView>, k: int)
    requires
        0 <= k <= block.len(),
        asm_after(lines, block.take(k)) is Err,
    ensures
        asm_after(lines, block) == asm_after(lines, block.take(k)),
    decreases block.len() - k,
{
    if k == block.len() {
        assert(block.take(k) =~= block);
    } else {
        assert(block.take(k + 1).drop_last() =~= block.take(k));
        lemma_asm_after_error(lines, block, k + 1);
    }
}

} // verus!
