//! The symbol table: which variable each scope declares, and which scope
//! encloses which.
//!
//! The table is a map from a scope and a name to the variable declared
//! there, and a map from each nested scope to the scope around it. A name is
//! resolved by walking outwards from a scope until a declaration is found.

use crate::ast::{
    lemma_statements_view_index, statement_view, Declaration, Scope, ScopeView, Statement,
    StatementView, VarInfo, VarInfoView,
};
use crate::text::{decimal, decimal_string, str_same};
use std::collections::HashMap;
use vstd::prelude::*;
use vstd::std_specs::hash::spec_hash_map_iter;
use vstd::std_specs::iter::IteratorSpec;
use vstd::string::*;

verus! {

broadcast use vstd::std_specs::hash::group_hash_axioms;

/// Why a symbol table could not be built.
#[derive(Debug, PartialEq)]
pub enum SymbolTableError {
    /// The scope `scope_id` declares `name` twice.
    DuplicateVariable { name: String, scope_id: u32 },
}

/// The value of a [`SymbolTableError`].
pub enum SymbolTableErrorView {
    DuplicateVariable { name: Seq<char>, scope_id: u32 },
}

impl View for SymbolTableError {
    type V = SymbolTableErrorView;

    open spec fn view(&self) -> SymbolTableErrorView {
        match self {
            SymbolTableError::DuplicateVariable { name, scope_id } => {
                SymbolTableErrorView::DuplicateVariable { name: name@, scope_id: *scope_id }
            },
        }
    }
}

/// The text of a [`SymbolTableError`].
pub open spec fn symbol_error_text(error: SymbolTableErrorView) -> Seq<char> {
    match error {
        SymbolTableErrorView::DuplicateVariable { name, scope_id } => {
            "Duplicate insertion of variable "@ + name + " into scope "@ + decimal(scope_id as nat)
                + "."@
        },
    }
}

impl SymbolTableError {
    /// The error in words, with the variable and the scope it names.
    pub fn message(&self) -> (text: String)
        ensures
            text@ == symbol_error_text(self@),
    {
        match self {
            SymbolTableError::DuplicateVariable { name, scope_id } => {
                let mut text = String::from_str("Duplicate insertion of variable ");
                text.append(name.as_str());
                text.append(" into scope ");
                text.append(decimal_string(*scope_id as u64).as_str());
                text.append(".");
                text
            },
        }
    }
}

/// The value of a [`SymbolTable`]: two maps.
pub struct SymbolTableView {
    /// The variable that a scope declares under a name.
    pub vars: Map<(u32, Seq<char>), VarInfoView>,
    /// The scope around a nested scope.
    pub parents: Map<u32, u32>,
}

/// A table, or the reason why there is none.
pub type TableResult = Result<SymbolTableView, SymbolTableErrorView>;

/// The table without variables and scopes.
pub open spec fn empty_table() -> SymbolTableView {
    SymbolTableView { vars: Map::empty(), parents: Map::empty() }
}

/// `table` with all of `other` added; where both know a key, `other` wins.
pub open spec fn merged(table: SymbolTableView, other: SymbolTableView) -> SymbolTableView {
    SymbolTableView {
        vars: table.vars.union_prefer_right(other.vars),
        parents: table.parents.union_prefer_right(other.parents),
    }
}

/// `table` with the scope `child` placed inside the scope `parent`.
pub open spec fn linked(table: SymbolTableView, child: u32, parent: u32) -> SymbolTableView {
    SymbolTableView { vars: table.vars, parents: table.parents.insert(child, parent) }
}

/// `table` with the variable `info` declared under `name` in the scope
/// `scope_id`; an error if that scope has declared the name before.
pub open spec fn declared(
    table: SymbolTableView,
    scope_id: u32,
    name: Seq<char>,
    info: VarInfoView,
) -> TableResult {
    if table.vars.contains_key((scope_id, name)) {
        Err(SymbolTableErrorView::DuplicateVariable { name, scope_id })
    } else {
        Ok(
            SymbolTableView {
                vars: table.vars.insert((scope_id, name), info),
                parents: table.parents,
            },
        )
    }
}

/// The table of `scope` and of every scope nested in it, or the first
/// duplicate declaration met when the statements are walked in order, nested
/// scopes as they come.
#[verifier::opaque]
pub open spec fn table_of(scope: ScopeView) -> TableResult
    decreases scope, 0nat,
{
    filled(empty_table(), scope.id, scope.statements)
}

/// `table` with what the statements `statements` of the scope `scope_id`
/// add, one after the other.
#[verifier::opaque]
pub open spec fn filled(
    table: SymbolTableView,
    scope_id: u32,
    statements: Seq<StatementView>,
) -> TableResult
    decreases statements, 0nat,
{
    if statements.len() == 0 {
        Ok(table)
    } else {
        match filled(table, scope_id, statements.drop_last()) {
            Err(e) => Err(e),
            Ok(t) => with_statement(t, scope_id, statements.last()),
        }
    }
}

/// `table` with what one statement of the scope `scope_id` adds: a variable
/// for a declaration, the tables of its branches for an `if` statement,
/// nothing for any other.
#[verifier::opaque]
pub open spec fn with_statement(
    table: SymbolTableView,
    scope_id: u32,
    statement: StatementView,
) -> TableResult
    decreases statement, 0nat,
{
    match statement {
        StatementView::VarDeclare { name, var_type, value } => declared(
            table,
            scope_id,
            name,
            VarInfoView { name, var_type },
        ),
        StatementView::If { condition, true_block, false_block } => match with_child(
            table,
            scope_id,
            true_block,
        ) {
            Err(e) => Err(e),
            Ok(t) => match false_block {
                Some(block) => with_child(t, scope_id, block),
                None => Ok(t),
            },
        },
        _ => Ok(table),
    }
}

/// `table` with the table of the scope `child` merged in and `child` placed
/// inside the scope `parent`.
#[verifier::opaque]
pub open spec fn with_child(table: SymbolTableView, parent: u32, child: ScopeView) -> TableResult
    decreases child, 1nat,
{
    match table_of(child) {
        Err(e) => Err(e),
        Ok(inner) => Ok(linked(merged(table, inner), child.id, parent)),
    }
}

/// The variable that `name` denotes in the scope `scope_id`: the one
/// declared there, else the one it denotes in the scope around it. The walk
/// outwards takes as many steps as the table has nested scopes, at most: no
/// chain of scopes, one inside the other, is longer.
pub open spec fn lookup(table: SymbolTableView, scope_id: u32, name: Seq<char>) -> Option<
    VarInfoView,
> {
    resolved(table, scope_id, name, table.parents.len())
}

/// The variable that `name` denotes in the scope `scope_id`, found in a walk
/// outwards of at most `steps` steps.
pub open spec fn resolved(table: SymbolTableView, scope_id: u32, name: Seq<char>, steps: nat) -> Option<
    VarInfoView,
>
    decreases steps,
{
    if table.vars.contains_key((scope_id, name)) {
        Some(table.vars[(scope_id, name)])
    } else if steps > 0 && table.parents.contains_key(scope_id) {
        resolved(table, table.parents[scope_id], name, (steps - 1) as nat)
    } else {
        None
    }
}

/// A variable with the scope that declares it and the name it is declared
/// under.
#[derive(Debug)]
struct VarEntry {
    scope_id: u32,
    name: String,
    info: VarInfo,
}

/// The nested scopes of the first `n` of the links `links`.
spec fn children_among(links: Seq<(&u32, &u32)>, n: int) -> Set<u32> {
    Set::new(|child: u32| exists|i: int| 0 <= i < n && *(#[trigger] links[i]).0 == child)
}

/// The map that a list of entries stands for: each entry in turn is put
/// under its scope and name, so a later entry replaces an earlier one.
spec fn vars_of(entries: Seq<VarEntry>) -> Map<(u32, Seq<char>), VarInfoView>
    decreases entries.len(),
{
    if entries.len() == 0 {
        Map::empty()
    } else {
        vars_of(entries.drop_last()).insert(
            (entries.last().scope_id, entries.last().name@),
            entries.last().info@,
        )
    }
}

proof fn lemma_vars_of_append(a: Seq<VarEntry>, b: Seq<VarEntry>)
    ensures
        vars_of(a + b) == vars_of(a).union_prefer_right(vars_of(b)),
    decreases b.len(),
{
    if !(b.len() == 0) {
        lemma_vars_of_append(a, b.drop_last());
        assert((a + b).drop_last() =~= a + b.drop_last());
    }
}

/// The scope tree of a function: its variables by scope and name, and the
/// scope around each nested scope.
///
/// The variables are kept as a list in which a later entry replaces an
/// earlier one: a variable is found under a scope and a name, and a name is
/// a string, which no hash map can be keyed by and still be reasoned about.
#[derive(Debug)]
pub struct SymbolTable {
    vars: Vec<VarEntry>,
    scope_tree: HashMap<u32, u32>,
}

impl View for SymbolTable {
    type V = SymbolTableView;

    closed spec fn view(&self) -> SymbolTableView {
        SymbolTableView { vars: vars_of(self.vars@), parents: self.scope_tree@ }
    }
}

impl SymbolTable {
    /// The table without variables and scopes.
    pub fn new() -> (table: Self)
        ensures
            table@ == empty_table(),
    {
        SymbolTable { vars: Vec::new(), scope_tree: HashMap::new() }
    }

    /// The variable that the scope `scope_id` itself declares under
    /// `var_name`, if it declares one.
    fn find(&self, scope_id: u32, var_name: &str) -> (found: Option<&VarInfo>)
        ensures
            match found {
                Some(info) => self@.vars.contains_key((scope_id, var_name@)) && self@.vars[(
                    scope_id,
                    var_name@,
                )] == info@,
                None => !self@.vars.contains_key((scope_id, var_name@)),
            },
    {
        let mut i = self.vars.len();
        assert(self.vars@.take(i as int) =~= self.vars@);
        while i > 0
            invariant
                i <= self.vars.len(),
                vars_of(self.vars@).contains_key((scope_id, var_name@)) == vars_of(
                    self.vars@.take(i as int),
                ).contains_key((scope_id, var_name@)),
                vars_of(self.vars@)[(scope_id, var_name@)] == vars_of(self.vars@.take(i as int))[(
                    scope_id,
                    var_name@,
                )],
            decreases i,
        {
            assert(self.vars@.take(i as int).drop_last() =~= self.vars@.take(i - 1));
            i -= 1;
            let entry = &self.vars[i];
            if entry.scope_id == scope_id && str_same(entry.name.as_str(), var_name) {
                return Some(&entry.info);
            }
        }
        None
    }

    /// The scope around the scope `scope_id`, if the table knows one.
    fn parent_of(&self, scope_id: u32) -> (parent: Option<u32>)
        ensures
            match parent {
                Some(id) => self@.parents.contains_key(scope_id) && self@.parents[scope_id] == id,
                None => !self@.parents.contains_key(scope_id),
            },
    {
        match self.scope_tree.get(&scope_id) {
            Some(parent) => Some(*parent),
            None => None,
        }
    }

    /// Declares a variable in the scope `scope_id`. A scope declares a name
    /// once: the second declaration is an error and leaves the table as it
    /// was.
    pub fn insert(&mut self, scope_id: u32, var_name: &str, var_info: VarInfo) -> (result: Result<
        (),
        SymbolTableError,
    >)
        ensures
            match result {
                Ok(()) => declared(old(self)@, scope_id, var_name@, var_info@) == Ok::<
                    SymbolTableView,
                    SymbolTableErrorView,
                >(final(self)@),
                Err(e) => declared(old(self)@, scope_id, var_name@, var_info@) == Err::<
                    SymbolTableView,
                    SymbolTableErrorView,
                >(e@) && final(self)@ == old(self)@,
            },
    {
        if self.find(scope_id, var_name).is_some() {
            return Err(
                SymbolTableError::DuplicateVariable { name: var_name.to_owned(), scope_id },
            );
        }
        let ghost before = self.vars@;
        self.vars.push(VarEntry { scope_id, name: var_name.to_owned(), info: var_info });
        assert(self.vars@.drop_last() =~= before);
        Ok(())
    }

    /// Adds every variable and every link of `other`. Where both tables know
    /// a key, the one of `other` stays.
    pub fn merge(&mut self, other: SymbolTable)
        ensures
            final(self)@ == merged(old(self)@, other@),
    {
        let mut other = other;
        proof {
            lemma_vars_of_append(self.vars@, other.vars@);
        }
        self.vars.append(&mut other.vars);

        let ghost before = self.scope_tree@;
        let ghost links = spec_hash_map_iter(&other.scope_tree).remaining();
        let ghost vars = self.vars@;
        for link in it: other.scope_tree.iter()
            invariant
                it.seq() == links,
                links == spec_hash_map_iter(&other.scope_tree).remaining(),
                self.vars@ == vars,
                self.scope_tree@ =~= before.union_prefer_right(
                    other.scope_tree@.restrict(children_among(links, it.index())),
                ),
        {
            let (child, parent) = link;
            proof {
                assert(links[it.index()] == link);
                assert(other.scope_tree@.contains_key(*links[it.index()].0));
                assert(children_among(links, it.index() + 1) =~= children_among(
                    links,
                    it.index(),
                ).insert(*child));
            }
            self.scope_tree.insert(*child, *parent);
        }
        proof {
            assert(children_among(links, links.len() as int) =~= other.scope_tree@.dom()) by {
                assert forall|child: u32| other.scope_tree@.contains_key(child) implies children_among(
                    links,
                    links.len() as int,
                ).contains(child) by {
                    assert(links.contains((&child, &other.scope_tree@[child])));
                    let i = choose|i: int|
                        0 <= i < links.len() && links[i] == (&child, &other.scope_tree@[child]);
                    assert(*links[i].0 == child);
                }
            }
            assert(other.scope_tree@.restrict(other.scope_tree@.dom()) =~= other.scope_tree@);
        }
    }

    /// Builds the table of `child`, merges it into this one, and places
    /// `child` inside the scope `parent_id`. On an error the table stays as
    /// it was.
    pub fn add_child_scope(&mut self, parent_id: u32, child: &Scope) -> (result: Result<
        (),
        SymbolTableError,
    >)
        ensures
            match result {
                Ok(()) => with_child(old(self)@, parent_id, child@) == Ok::<
                    SymbolTableView,
                    SymbolTableErrorView,
                >(final(self)@),
                Err(e) => with_child(old(self)@, parent_id, child@) == Err::<
                    SymbolTableView,
                    SymbolTableErrorView,
                >(e@) && final(self)@ == old(self)@,
            },
        decreases child, 1nat,
    {
        let child_table = match Self::from_scope(child) {
            Ok(table) => table,
            Err(e) => {
                assert(with_child(old(self)@, parent_id, child@) == Err::<
                    SymbolTableView,
                    SymbolTableErrorView,
                >(e@)) by {
                    reveal(with_child);
                    reveal(table_of);
                }
                return Err(e);
            },
        };
        let ghost inner = child_table@;
        self.merge(child_table);
        self.scope_tree.insert(child.id, parent_id);
        assert(with_child(old(self)@, parent_id, child@) == Ok::<
            SymbolTableView,
            SymbolTableErrorView,
        >(self@)) by {
            reveal(with_child);
            reveal(table_of);
        }
        Ok(())
    }

    /// Builds the table of the scope of a function.
    pub fn from_function(dec: &Declaration) -> (result: Result<Self, SymbolTableError>)
        ensures
            match result {
                Ok(table) => table_of(dec@->scope) == Ok::<SymbolTableView, SymbolTableErrorView>(
                    table@,
                ),
                Err(e) => table_of(dec@->scope) == Err::<SymbolTableView, SymbolTableErrorView>(e@),
            },
    {
        match dec {
            Declaration::Function { scope, .. } => Self::from_scope(scope),
        }
    }

    /// Builds the table of `scope`: its own declarations, and the tables of
    /// the scopes nested in it, each placed inside `scope`. The statements
    /// are walked in order; the first duplicate declaration ends the walk.
    pub fn from_scope(scope: &Scope) -> (result: Result<Self, SymbolTableError>)
        ensures
            match result {
                Ok(table) => table_of(scope@) == Ok::<SymbolTableView, SymbolTableErrorView>(table@),
                Err(e) => table_of(scope@) == Err::<SymbolTableView, SymbolTableErrorView>(e@),
            },
        decreases scope, 0nat,
    {
        let id = scope.id;
        let ghost statements = scope@.statements;
        let mut table = Self::new();
        let n = scope.statements.len();
        let mut i: usize = 0;
        proof {
            assert(filled(empty_table(), id, statements.take(0)) == Ok::<
                SymbolTableView,
                SymbolTableErrorView,
            >(empty_table())) by {
                reveal(filled);
            }
        }
        while i < n
            invariant
                i <= n == scope.statements.len(),
                id == scope.id,
                statements == scope@.statements,
                statements.len() == n,
                filled(empty_table(), id, statements.take(i as int)) == Ok::<
                    SymbolTableView,
                    SymbolTableErrorView,
                >(table@),
            decreases n - i,
        {
            let ghost before = table@;
            let ghost prefix = statements.take(i + 1);
            proof {
                lemma_statements_view_index(scope.statements@, i as int);
                assert(prefix.drop_last() =~= statements.take(i as int));
                assert(filled(empty_table(), id, prefix) == with_statement(
                    before,
                    id,
                    scope.statements[i as int]@,
                )) by {
                    reveal(filled);
                    reveal(with_statement);
                }
            }
            let step = match &scope.statements[i] {
                Statement::VarDeclare { name, var_type, .. } => {
                    assert(with_statement(before, id, scope.statements[i as int]@) == declared(
                        before,
                        id,
                        name@,
                        VarInfoView { name: name@, var_type: var_type@ },
                    )) by {
                        reveal(with_statement);
                        reveal(statement_view);
                    }
                    table.insert(
                        id,
                        name.as_str(),
                        VarInfo { name: name.clone(), var_type: var_type.clone() },
                    )
                },
                Statement::If { true_block, false_block, .. } => {
                    assert(with_statement(before, id, scope.statements[i as int]@) == match with_child(
                        before,
                        id,
                        true_block@,
                    ) {
                        Err(e) => Err(e),
                        Ok(t) => match false_block {
                            Some(block) => with_child(t, id, block@),
                            None => Ok(t),
                        },
                    }) by {
                        reveal(with_statement);
                        reveal(with_child);
                        reveal(statement_view);
                    }
                    match table.add_child_scope(id, true_block) {
                        Err(e) => Err(e),
                        Ok(()) => match false_block {
                            Some(false_scope) => table.add_child_scope(id, false_scope),
                            None => Ok(()),
                        },
                    }
                },
                _ => {
                    assert(with_statement(before, id, scope.statements[i as int]@) == Ok::<
                        SymbolTableView,
                        SymbolTableErrorView,
                    >(before)) by {
                        reveal(with_statement);
                        reveal(statement_view);
                    }
                    Ok(())
                },
            };
            match step {
                Ok(()) => {},
                Err(e) => {
                    proof {
                        lemma_filled_error(empty_table(), id, statements, i + 1);
                        assert(table_of(scope@) == Err::<SymbolTableView, SymbolTableErrorView>(
                            e@,
                        )) by {
                            reveal(table_of);
                            reveal(filled);
                        }
                    }
                    return Err(e);
                },
            }
            i += 1;
        }
        proof {
            assert(statements.take(n as int) =~= statements);
            assert(table_of(scope@) == Ok::<SymbolTableView, SymbolTableErrorView>(table@)) by {
                reveal(table_of);
                reveal(filled);
            }
        }
        Ok(table)
    }

    /// The variable that `var_name` denotes in the scope `scope_id`: the one
    /// that the scope declares, else the one that the name denotes in the
    /// scope around it; none when the outermost scope is passed without a
    /// declaration.
    pub fn get(&self, scope_id: u32, var_name: &str) -> (found: Option<&VarInfo>)
        ensures
            match found {
                Some(info) => lookup(self@, scope_id, var_name@) == Some(info@),
                None => lookup(self@, scope_id, var_name@) is None,
            },
    {
        let mut current = scope_id;
        let mut steps = self.scope_tree.len();
        loop
            invariant
                steps <= self.scope_tree.len(),
                lookup(self@, scope_id, var_name@) == resolved(
                    self@,
                    current,
                    var_name@,
                    steps as nat,
                ),
            decreases steps,
        {
            if let Some(var_info) = self.find(current, var_name) {
                return Some(var_info);
            }
            if steps == 0 {
                return None;
            }
            match self.parent_of(current) {
                Some(parent_scope) => {
                    current = parent_scope;
                    steps -= 1;
                },
                None => {
                    return None;
                },
            }
        }
    }
}

/// Once a prefix of the statements fails, so does every longer one, with
/// the same error.
pub proof fn lemma_filled_error(
    table: SymbolTableView,
    scope_id: u32,
    statements: Seq<StatementView>,
    k: int,
)
    requires
        0 <= k <= statements.len(),
        filled(table, scope_id, statements.take(k)) is Err,
    ensures
        filled(table, scope_id, statements) == filled(table, scope_id, statements.take(k)),
    decreases statements.len() - k,
{
    if k == statements.len() {
        assert(statements.take(k) =~= statements);
    } else {
        assert(statements.take(k + 1).drop_last() =~= statements.take(k));
        assert(filled(table, scope_id, statements.take(k + 1)) == filled(
            table,
            scope_id,
            statements.take(k),
        )) by {
            reveal(filled);
        }
        lemma_filled_error(table, scope_id, statements, k + 1);
    }
}

} // verus!
