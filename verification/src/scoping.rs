//! What the symbol table of a scope tree holds, and why a lookup in it finds
//! the nearest declaration.
//!
//! The first half says, by the shape of the tree alone, what a name denotes
//! in a scope. The second half proves that the table built by
//! [`table_of`](crate::symbol_table::table_of) resolves every name that way,
//! provided no two scopes of the tree share an identifier.

use crate::ast::{
    distinct_ids, distinct_in_statement, distinct_in_statements, ids_in_statement,
    ids_in_statements, ids_of_scope, ScopeView, StatementView, VarInfoView,
};
use crate::symbol_table::{
    declared, empty_table, filled, linked, lookup, merged, resolved, table_of, with_child,
    with_statement, SymbolTableView,
};
use vstd::prelude::*;

verus! {

/// The variable that the statements declare under `name` themselves, not in
/// a nested scope: the first such declaration.
pub open spec fn declared_in(statements: Seq<StatementView>, name: Seq<char>) -> Option<VarInfoView>
    decreases statements.len(),
{
    if statements.len() == 0 {
        None
    } else {
        match declared_in(statements.drop_last(), name) {
            Some(info) => Some(info),
            None => match statements.last() {
                StatementView::VarDeclare { name: declared_name, var_type, value } => {
                    if declared_name == name {
                        Some(VarInfoView { name, var_type })
                    } else {
                        None
                    }
                },
                _ => None,
            },
        }
    }
}

/// `inner` if it is a declaration, else `outer`.
pub open spec fn nearest(inner: Option<VarInfoView>, outer: Option<VarInfoView>) -> Option<
    VarInfoView,
> {
    match inner {
        Some(info) => Some(info),
        None => outer,
    }
}

/// What `name` denotes in the scope `target`, if `target` is `scope` or
/// nested in it: the declaration of the nearest scope around `target` that
/// has one, and `outer` if none within `scope` has.
pub open spec fn visible_in_scope(
    scope: ScopeView,
    target: u32,
    name: Seq<char>,
    outer: Option<VarInfoView>,
) -> Option<Option<VarInfoView>>
    decreases scope,
{
    let here = nearest(declared_in(scope.statements, name), outer);
    if scope.id == target {
        Some(here)
    } else {
        visible_in_statements(scope.statements, target, name, here)
    }
}

/// What `name` denotes in the scope `target`, if `target` is nested in
/// `statements`, where `name` denotes `outer` in the scope of the
/// statements.
pub open spec fn visible_in_statements(
    statements: Seq<StatementView>,
    target: u32,
    name: Seq<char>,
    outer: Option<VarInfoView>,
) -> Option<Option<VarInfoView>>
    decreases statements,
{
    if statements.len() == 0 {
        None
    } else {
        match visible_in_statements(statements.drop_last(), target, name, outer) {
            Some(found) => Some(found),
            None => visible_in_statement(statements.last(), target, name, outer),
        }
    }
}

/// What `name` denotes in the scope `target`, if `target` is nested in
/// `statement`.
pub open spec fn visible_in_statement(
    statement: StatementView,
    target: u32,
    name: Seq<char>,
    outer: Option<VarInfoView>,
) -> Option<Option<VarInfoView>>
    decreases statement,
{
    match statement {
        StatementView::If { condition, true_block, false_block } => match visible_in_scope(
            true_block,
            target,
            name,
            outer,
        ) {
            Some(found) => Some(found),
            None => match false_block {
                Some(block) => visible_in_scope(block, target, name, outer),
                None => None,
            },
        },
        _ => None,
    }
}

/// True when `child` is a branch of the `if` statement `statement`.
pub open spec fn is_branch_of(statement: StatementView, child: ScopeView) -> bool {
    match statement {
        StatementView::If { condition, true_block, false_block } => true_block == child
            || false_block == Some(child),
        _ => false,
    }
}

/// True when `child` is a branch of an `if` statement among `statements`.
pub open spec fn is_branch_in(statements: Seq<StatementView>, child: ScopeView) -> bool {
    exists|i: int| 0 <= i < statements.len() && is_branch_of(#[trigger] statements[i], child)
}

/// What [`table_of`] is, one step unfolded.
proof fn lemma_table_of(scope: ScopeView)
    ensures
        table_of(scope) == filled(empty_table(), scope.id, scope.statements),
{
    reveal(table_of);
    reveal(filled);
}

/// What [`filled`] is, one step unfolded.
proof fn lemma_filled(table: SymbolTableView, scope_id: u32, statements: Seq<StatementView>)
    ensures
        filled(table, scope_id, statements) == if statements.len() == 0 {
            Ok(table)
        } else {
            match filled(table, scope_id, statements.drop_last()) {
                Err(e) => Err(e),
                Ok(t) => with_statement(t, scope_id, statements.last()),
            }
        },
{
    reveal(filled);
    reveal(with_statement);
}

/// What [`with_statement`] is, one step unfolded.
proof fn lemma_with_statement(table: SymbolTableView, scope_id: u32, statement: StatementView)
    ensures
        with_statement(table, scope_id, statement) == match statement {
            StatementView::VarDeclare { name, var_type, value } => declared(
                table,
                scope_id,
                name,
                VarInfoView { name, var_type },
            ),
            StatementView::If { condition, true_block, false_block } => match with_child(
                table,
                scope_id,
                true_block,
            ) {
                Err(e) => Err(e),
                Ok(t) => match false_block {
                    Some(block) => with_child(t, scope_id, block),
                    None => Ok(t),
                },
            },
            _ => Ok(table),
        },
{
    reveal(with_statement);
    reveal(with_child);
}

/// What [`with_child`] is, one step unfolded.
proof fn lemma_with_child(table: SymbolTableView, parent: u32, child: ScopeView)
    ensures
        with_child(table, parent, child) == match table_of(child) {
            Err(e) => Err(e),
            Ok(inner) => Ok(linked(merged(table, inner), child.id, parent)),
        },
{
    reveal(with_child);
    reveal(table_of);
}

/// True when the two tables hold the same under every name for the scope
/// `id`.
pub open spec fn same_vars(a: SymbolTableView, b: SymbolTableView, id: u32) -> bool {
    forall|name: Seq<char>|
        #![trigger a.vars.contains_key((id, name))]
        #![trigger b.vars.contains_key((id, name))]
        a.vars.contains_key((id, name)) == b.vars.contains_key((id, name)) && (a.vars.contains_key(
            (id, name),
        ) ==> a.vars[(id, name)] == b.vars[(id, name)])
}

/// True when both tables place the scope `id` inside the same scope.
pub open spec fn same_parent(a: SymbolTableView, b: SymbolTableView, id: u32) -> bool {
    a.parents.contains_key(id) && b.parents.contains_key(id) && a.parents[id] == b.parents[id]
}

/// True when `table` holds for the scope `child` and the scopes nested in
/// it what the table `inner` of `child` holds, and places `child` inside
/// the scope `parent`.
pub open spec fn holds_child(
    table: SymbolTableView,
    inner: SymbolTableView,
    child: ScopeView,
    parent: u32,
) -> bool {
    &&& forall|id: u32| #[trigger] ids_of_scope(child).contains(id) ==> same_vars(table, inner, id)
    &&& forall|id: u32| #[trigger]
        ids_in_statements(child.statements).contains(id) ==> same_parent(table, inner, id)
    &&& table.parents.contains_key(child.id)
    &&& table.parents[child.id] == parent
}

/// True when `table` knows no scope but `scope_id` and those of `nested`,
/// and places exactly the scopes of `nested` inside another.
pub open spec fn covers(table: SymbolTableView, scope_id: u32, nested: Set<u32>) -> bool {
    &&& forall|id: u32, name: Seq<char>| #[trigger]
        table.vars.contains_key((id, name)) ==> id == scope_id || nested.contains(id)
    &&& forall|id: u32| #[trigger] table.parents.contains_key(id) <==> nested.contains(id)
}

/// True when `table` holds for the scope `scope_id` the declarations that
/// `statements` make themselves.
pub open spec fn holds_declarations(
    table: SymbolTableView,
    scope_id: u32,
    statements: Seq<StatementView>,
) -> bool {
    forall|name: Seq<char>|
        #![trigger table.vars.contains_key((scope_id, name))]
        #![trigger declared_in(statements, name)]
        if table.vars.contains_key((scope_id, name)) {
            declared_in(statements, name) == Some(table.vars[(scope_id, name)])
        } else {
            declared_in(statements, name) is None
        }
}

/// True when `table` holds every scope of `children` as [`holds_child`]
/// says, inside the scope `scope_id`, and knows their scopes as `nested`.
pub open spec fn holds_children(
    table: SymbolTableView,
    scope_id: u32,
    children: Set<ScopeView>,
    nested: Set<u32>,
) -> bool {
    forall|child: ScopeView| #[trigger]
        children.contains(child) ==> {
            &&& table_of(child) is Ok
            &&& holds_child(table, table_of(child)->Ok_0, child, scope_id)
            &&& ids_of_scope(child).subset_of(nested)
        }
}

/// The branches of the `if` statements among `statements`.
pub open spec fn branches_in(statements: Seq<StatementView>) -> Set<ScopeView> {
    Set::new(|child: ScopeView| is_branch_in(statements, child))
}

/// True when `table` is a faithful table of the scope `scope_id` with the
/// statements `statements`: it holds the declarations of the statements, it
/// holds every branch with all that is nested in it, and nothing else.
pub open spec fn faithful(
    table: SymbolTableView,
    scope_id: u32,
    statements: Seq<StatementView>,
) -> bool {
    &&& covers(table, scope_id, ids_in_statements(statements))
    &&& holds_declarations(table, scope_id, statements)
    &&& holds_children(
        table,
        scope_id,
        branches_in(statements),
        ids_in_statements(statements),
    )
}

/// Merging the table of a new branch into a table and linking the branch
/// keeps what the table held and adds the branch, as long as the branch
/// shares no identifier with what was there.
proof fn lemma_child_added(
    table: SymbolTableView,
    scope_id: u32,
    children: Set<ScopeView>,
    nested: Set<u32>,
    child: ScopeView,
)
    requires
        covers(table, scope_id, nested),
        holds_children(table, scope_id, children, nested),
        !nested.contains(scope_id),
        !ids_of_scope(child).contains(scope_id),
        ids_of_scope(child).disjoint(nested),
        distinct_ids(child),
        table_of(child) is Ok,
        covers(table_of(child)->Ok_0, child.id, ids_in_statements(child.statements)),
    ensures
        with_child(table, scope_id, child) is Ok,
        ({
            let after = with_child(table, scope_id, child)->Ok_0;
            let all = nested.union(ids_of_scope(child));
            &&& covers(after, scope_id, all)
            &&& holds_children(after, scope_id, children.insert(child), all)
            &&& same_vars(after, table, scope_id)
        }),
{
    lemma_with_child(table, scope_id, child);
    let inner = table_of(child)->Ok_0;
    let after = with_child(table, scope_id, child)->Ok_0;
    let all = nested.union(ids_of_scope(child));
    assert forall|id: u32| #[trigger] after.parents.contains_key(id) <==> all.contains(id) by {}
    assert forall|id: u32, name: Seq<char>| #[trigger]
        after.vars.contains_key((id, name)) implies id == scope_id || all.contains(id) by {}
    assert(holds_child(after, inner, child, scope_id)) by {
        assert forall|id: u32| #[trigger] ids_of_scope(child).contains(id) implies same_vars(
            after,
            inner,
            id,
        ) by {
            assert forall|name: Seq<char>|
                after.vars.contains_key((id, name)) == inner.vars.contains_key((id, name)) && (
                after.vars.contains_key((id, name)) ==> after.vars[(id, name)] == inner.vars[(
                    id,
                    name,
                )]) by {}
        }
        assert forall|id: u32| #[trigger]
            ids_in_statements(child.statements).contains(id) implies same_parent(
            after,
            inner,
            id,
        ) by {}
    }
    assert forall|other: ScopeView| #[trigger] children.insert(child).contains(other) implies {
        &&& table_of(other) is Ok
        &&& holds_child(after, table_of(other)->Ok_0, other, scope_id)
        &&& ids_of_scope(other).subset_of(all)
    } by {
        if other != child {
            let kept = table_of(other)->Ok_0;
            assert forall|id: u32| #[trigger] ids_of_scope(other).contains(id) implies same_vars(
                after,
                kept,
                id,
            ) by {
                assert forall|name: Seq<char>|
                    after.vars.contains_key((id, name)) == kept.vars.contains_key((id, name)) && (
                    after.vars.contains_key((id, name)) ==> after.vars[(id, name)] == kept.vars[(
                        id,
                        name,
                    )]) by {}
            }
            assert forall|id: u32| #[trigger]
                ids_in_statements(other.statements).contains(id) implies same_parent(
                after,
                kept,
                id,
            ) by {}
        }
    }
    assert(same_vars(after, table, scope_id)) by {
        assert forall|name: Seq<char>|
            after.vars.contains_key((scope_id, name)) == table.vars.contains_key((scope_id, name))
                && (after.vars.contains_key((scope_id, name)) ==> after.vars[(scope_id, name)]
                == table.vars[(scope_id, name)]) by {}
    }
}

/// The branches among statements are those among all but the last
/// statement and those of the last.
proof fn lemma_branches_with_last(statements: Seq<StatementView>, child: ScopeView)
    requires
        statements.len() > 0,
    ensures
        is_branch_in(statements, child) == (is_branch_in(statements.drop_last(), child)
            || is_branch_of(statements.last(), child)),
{
    let before = statements.drop_last();
    if is_branch_in(statements, child) {
        let i = choose|i: int| 0 <= i < statements.len() && is_branch_of(#[trigger] statements[i], child);
        if i < before.len() {
            assert(is_branch_of(before[i], child));
        }
    }
    if is_branch_in(before, child) {
        let i = choose|i: int| 0 <= i < before.len() && is_branch_of(#[trigger] before[i], child);
    }
}

/// The table of a scope whose scopes all have different identifiers is
/// faithful.
pub proof fn lemma_table_is_faithful(scope: ScopeView)
    requires
        distinct_ids(scope),
        table_of(scope) is Ok,
    ensures
        faithful(table_of(scope)->Ok_0, scope.id, scope.statements),
    decreases scope, 1nat,
{
    lemma_table_of(scope);
    lemma_filled_is_faithful(scope.id, scope.statements);
}

/// The table filled from the statements of a scope is faithful, when the
/// scopes nested in the statements all have different identifiers, and none
/// that of the scope.
pub proof fn lemma_filled_is_faithful(scope_id: u32, statements: Seq<StatementView>)
    requires
        !ids_in_statements(statements).contains(scope_id),
        distinct_in_statements(statements),
        filled(empty_table(), scope_id, statements) is Ok,
    ensures
        faithful(filled(empty_table(), scope_id, statements)->Ok_0, scope_id, statements),
    decreases statements, 0nat,
{
    lemma_filled(empty_table(), scope_id, statements);
    let table = filled(empty_table(), scope_id, statements)->Ok_0;
    if statements.len() == 0 {
        assert forall|name: Seq<char>| declared_in(statements, name) is None by {}
        assert forall|child: ScopeView| !is_branch_in(statements, child) by {}
    } else {
        let before = statements.drop_last();
        let last = statements.last();
        lemma_filled_is_faithful(scope_id, before);
        let old = filled(empty_table(), scope_id, before)->Ok_0;
        let nested = ids_in_statements(before);
        let children = branches_in(before);
        lemma_with_statement(old, scope_id, last);
        assert(distinct_in_statement(last));
        assert forall|child: ScopeView|
            is_branch_in(statements, child) == (is_branch_in(before, child) || is_branch_of(
                last,
                child,
            )) by {
            lemma_branches_with_last(statements, child);
        }
        match last {
            StatementView::VarDeclare { name, var_type, value } => {
                assert forall|child: ScopeView| #[trigger]
                    branches_in(statements).contains(child) implies {
                    &&& table_of(child) is Ok
                    &&& holds_child(table, table_of(child)->Ok_0, child, scope_id)
                    &&& ids_of_scope(child).subset_of(ids_in_statements(statements))
                } by {
                    assert(children.contains(child));
                    let kept = table_of(child)->Ok_0;
                    assert forall|id: u32| #[trigger]
                        ids_of_scope(child).contains(id) implies same_vars(table, kept, id) by {}
                }
                assert forall|other: Seq<char>|
                    #![trigger table.vars.contains_key((scope_id, other))]
                    #![trigger declared_in(statements, other)]
                    if table.vars.contains_key((scope_id, other)) {
                        declared_in(statements, other) == Some(table.vars[(scope_id, other)])
                    } else {
                        declared_in(statements, other) is None
                    } by {}
            },
            StatementView::If { condition, true_block, false_block } => {
                lemma_with_child(old, scope_id, true_block);
                lemma_table_is_faithful(true_block);
                lemma_child_added(old, scope_id, children, nested, true_block);
                let middle = with_child(old, scope_id, true_block)->Ok_0;
                let nested_middle = nested.union(ids_of_scope(true_block));
                let children_middle = children.insert(true_block);
                match false_block {
                    Some(block) => {
                        lemma_with_child(middle, scope_id, block);
                        lemma_table_is_faithful(block);
                        lemma_child_added(
                            middle,
                            scope_id,
                            children_middle,
                            nested_middle,
                            block,
                        );
                        assert(branches_in(statements) =~= children_middle.insert(block));
                    },
                    None => {
                        assert(branches_in(statements) =~= children_middle);
                    },
                }
                assert forall|name: Seq<char>|
                    #![trigger table.vars.contains_key((scope_id, name))]
                    #![trigger declared_in(statements, name)]
                    if table.vars.contains_key((scope_id, name)) {
                        declared_in(statements, name) == Some(table.vars[(scope_id, name)])
                    } else {
                        declared_in(statements, name) is None
                    } by {}
            },
            _ => {
                assert(branches_in(statements) =~= children);
                assert forall|name: Seq<char>|
                    #![trigger table.vars.contains_key((scope_id, name))]
                    #![trigger declared_in(statements, name)]
                    if table.vars.contains_key((scope_id, name)) {
                        declared_in(statements, name) == Some(table.vars[(scope_id, name)])
                    } else {
                        declared_in(statements, name) is None
                    } by {}
            },
        }
    }
}

/// True when a walk outwards from the scope `id` comes to an end within
/// `steps` steps: it finds `name`, or it reaches a scope that lies in no
/// other.
pub open spec fn ends(table: SymbolTableView, id: u32, name: Seq<char>, steps: nat) -> bool
    decreases steps,
{
    table.vars.contains_key((id, name)) || !table.parents.contains_key(id) || (steps > 0 && ends(
        table,
        table.parents[id],
        name,
        (steps - 1) as nat,
    ))
}

/// A walk that has come to an end finds the same with any number of further
/// steps.
pub proof fn lemma_walk_is_settled(
    table: SymbolTableView,
    id: u32,
    name: Seq<char>,
    steps: nat,
    more: nat,
)
    requires
        ends(table, id, name, steps),
        steps <= more,
    ensures
        ends(table, id, name, more),
        resolved(table, id, name, more) == resolved(table, id, name, steps),
    decreases steps,
{
    if !table.vars.contains_key((id, name)) && table.parents.contains_key(id) {
        lemma_walk_is_settled(
            table,
            table.parents[id],
            name,
            (steps - 1) as nat,
            (more - 1) as nat,
        );
    }
}

/// A scope that is not in a tree is not found in it.
pub proof fn lemma_not_visible_outside(
    scope: ScopeView,
    target: u32,
    name: Seq<char>,
    outer: Option<VarInfoView>,
)
    requires
        !ids_of_scope(scope).contains(target),
    ensures
        visible_in_scope(scope, target, name, outer) is None,
    decreases scope, 1nat,
{
    let here = nearest(declared_in(scope.statements, name), outer);
    lemma_not_visible_in_statements(scope.statements, target, name, here);
}

/// A scope that is not nested in a sequence of statements is not found in
/// it.
pub proof fn lemma_not_visible_in_statements(
    statements: Seq<StatementView>,
    target: u32,
    name: Seq<char>,
    outer: Option<VarInfoView>,
)
    requires
        !ids_in_statements(statements).contains(target),
    ensures
        visible_in_statements(statements, target, name, outer) is None,
    decreases statements, 0nat,
{
    if statements.len() > 0 {
        let last = statements.last();
        lemma_not_visible_in_statements(statements.drop_last(), target, name, outer);
        assert(!ids_in_statement(last).contains(target));
        match last {
            StatementView::If { condition, true_block, false_block } => {
                lemma_not_visible_outside(true_block, target, name, outer);
                match false_block {
                    Some(block) => {
                        lemma_not_visible_outside(block, target, name, outer);
                    },
                    None => {},
                }
            },
            _ => {},
        }
        assert(visible_in_statement(last, target, name, outer) is None);
    }
}

/// A scope nested in a sequence of statements is a branch among them, or
/// nested in one: the lemma gives that branch.
pub proof fn lemma_find_branch(statements: Seq<StatementView>, target: u32) -> (child: ScopeView)
    requires
        ids_in_statements(statements).contains(target),
    ensures
        is_branch_in(statements, child),
        ids_of_scope(child).contains(target),
    decreases statements.len(),
{
    let last = statements.last();
    if ids_in_statement(last).contains(target) {
        match last {
            StatementView::If { condition, true_block, false_block } => {
                if ids_of_scope(true_block).contains(target) {
                    true_block
                } else {
                    let block = false_block->0;
                    block
                }
            },
            _ => arbitrary(),
        }
    } else {
        let child = lemma_find_branch(statements.drop_last(), target);
        lemma_branches_with_last(statements, child);
        child
    }
}

/// What a name denotes in a scope nested in a branch is found by looking
/// through that branch alone.
pub proof fn lemma_visible_in_branch(
    statements: Seq<StatementView>,
    child: ScopeView,
    target: u32,
    name: Seq<char>,
    outer: Option<VarInfoView>,
)
    requires
        distinct_in_statements(statements),
        is_branch_in(statements, child),
        ids_of_scope(child).contains(target),
        visible_in_scope(child, target, name, outer) is Some,
    ensures
        visible_in_statements(statements, target, name, outer) == visible_in_scope(
            child,
            target,
            name,
            outer,
        ),
    decreases statements.len(),
{
    let before = statements.drop_last();
    let last = statements.last();
    lemma_branches_with_last(statements, child);
    assert(distinct_in_statement(last));
    if is_branch_in(before, child) {
        lemma_visible_in_branch(before, child, target, name, outer);
    } else {
        match last {
            StatementView::If { condition, true_block, false_block } => {
                lemma_not_visible_in_statements(before, target, name, outer);
                if true_block != child {
                    lemma_not_visible_outside(true_block, target, name, outer);
                }
                assert(visible_in_statement(last, target, name, outer) == visible_in_scope(
                    child,
                    target,
                    name,
                    outer,
                ));
            },
            _ => {},
        }
    }
}

/// True when `table` holds for `scope` and the scopes nested in it what the
/// table `inner` holds.
pub open spec fn agrees(table: SymbolTableView, inner: SymbolTableView, scope: ScopeView) -> bool {
    &&& forall|id: u32| #[trigger] ids_of_scope(scope).contains(id) ==> same_vars(table, inner, id)
    &&& forall|id: u32| #[trigger]
        ids_in_statements(scope.statements).contains(id) ==> same_parent(table, inner, id)
}

/// From a scope inwards: if `table` agrees with the table of `scope` and
/// resolves `name` rightly at `scope` in `steps` steps, it resolves `name`
/// rightly at every scope nested in `scope`, in as many more steps as the
/// table of `scope` has nested scopes.
proof fn lemma_walk_inwards(
    table: SymbolTableView,
    scope: ScopeView,
    target: u32,
    name: Seq<char>,
    outer: Option<VarInfoView>,
    steps: nat,
)
    requires
        distinct_ids(scope),
        table_of(scope) is Ok,
        agrees(table, table_of(scope)->Ok_0, scope),
        ids_of_scope(scope).contains(target),
        ends(table, scope.id, name, steps),
        resolved(table, scope.id, name, steps) == nearest(
            declared_in(scope.statements, name),
            outer,
        ),
    ensures
        visible_in_scope(scope, target, name, outer) is Some,
        ends(table, target, name, steps + table_of(scope)->Ok_0.parents.len()),
        resolved(table, target, name, steps + table_of(scope)->Ok_0.parents.len())
            == visible_in_scope(
            scope,
            target,
            name,
            outer,
        )->Some_0,
    decreases table_of(scope)->Ok_0.parents.len(),
{
    let inner = table_of(scope)->Ok_0;
    let here = nearest(declared_in(scope.statements, name), outer);
    lemma_table_is_faithful(scope);
    if target == scope.id {
        lemma_walk_is_settled(table, scope.id, name, steps, steps + inner.parents.len());
    } else {
        let child = lemma_find_branch(scope.statements, target);
        assert(branches_in(scope.statements).contains(child));
        let kept = table_of(child)->Ok_0;
        lemma_branch_is_distinct(scope.statements, child);
        lemma_table_is_faithful(child);
        lemma_branch_has_fewer_scopes(scope, child);
        assert(agrees(table, kept, child)) by {
            assert forall|id: u32| #[trigger] ids_of_scope(child).contains(id) implies same_vars(
                table,
                kept,
                id,
            ) by {
                assert(ids_of_scope(scope).contains(id));
                assert forall|other: Seq<char>|
                    table.vars.contains_key((id, other)) == kept.vars.contains_key((id, other))
                        && (table.vars.contains_key((id, other)) ==> table.vars[(id, other)]
                        == kept.vars[(id, other)]) by {}
            }
            assert forall|id: u32| #[trigger]
                ids_in_statements(child.statements).contains(id) implies same_parent(
                table,
                kept,
                id,
            ) by {}
        }
        lemma_walk_inwards(table, child, target, name, here, steps + 1);
        lemma_walk_is_settled(
            table,
            target,
            name,
            steps + 1 + kept.parents.len(),
            steps + inner.parents.len(),
        );
        lemma_visible_in_branch(scope.statements, child, target, name, here);
    }
}

/// There are finitely many scopes in a tree.
pub proof fn lemma_ids_are_finite(scope: ScopeView)
    ensures
        ids_of_scope(scope).finite(),
        ids_in_statements(scope.statements).finite(),
    decreases scope, 1nat,
{
    lemma_ids_in_statements_are_finite(scope.statements);
}

/// There are finitely many scopes nested in a sequence of statements.
pub proof fn lemma_ids_in_statements_are_finite(statements: Seq<StatementView>)
    ensures
        ids_in_statements(statements).finite(),
    decreases statements, 0nat,
{
    if statements.len() > 0 {
        lemma_ids_in_statements_are_finite(statements.drop_last());
        match statements.last() {
            StatementView::If { condition, true_block, false_block } => {
                lemma_ids_are_finite(true_block);
                match false_block {
                    Some(block) => {
                        lemma_ids_are_finite(block);
                    },
                    None => {},
                }
            },
            _ => {},
        }
        assert(ids_in_statement(statements.last()).finite());
    }
}

/// The table of a branch has fewer nested scopes than the table of the
/// scope around it.
proof fn lemma_branch_has_fewer_scopes(scope: ScopeView, child: ScopeView)
    requires
        distinct_ids(scope),
        table_of(scope) is Ok,
        is_branch_in(scope.statements, child),
    ensures
        table_of(child) is Ok,
        table_of(child)->Ok_0.parents.len() + 1 <= table_of(scope)->Ok_0.parents.len(),
{
    lemma_table_is_faithful(scope);
    assert(branches_in(scope.statements).contains(child));
    lemma_branch_is_distinct(scope.statements, child);
    lemma_table_is_faithful(child);
    lemma_ids_are_finite(scope);
    lemma_ids_are_finite(child);
    let outer = ids_in_statements(scope.statements);
    let inner = ids_in_statements(child.statements);
    assert(table_of(scope)->Ok_0.parents.dom() =~= outer);
    assert(table_of(child)->Ok_0.parents.dom() =~= inner);
    assert(inner.insert(child.id) =~= ids_of_scope(child));
    vstd::set_lib::lemma_len_subset(ids_of_scope(child), outer);
}

/// The branches among statements whose nested scopes all have different
/// identifiers have that property themselves.
proof fn lemma_branch_is_distinct(statements: Seq<StatementView>, child: ScopeView)
    requires
        distinct_in_statements(statements),
        is_branch_in(statements, child),
    ensures
        distinct_ids(child),
    decreases statements.len(),
{
    lemma_branches_with_last(statements, child);
    if is_branch_in(statements.drop_last(), child) {
        lemma_branch_is_distinct(statements.drop_last(), child);
    } else {
        assert(distinct_in_statement(statements.last()));
    }
}

/// Scope-chain resolution. In the table of a tree of scopes that all have
/// different identifiers, a lookup from any scope of the tree finds what the
/// name denotes there by the shape of the tree: the declaration of the
/// nearest scope around that has one, and nothing if none has.
pub proof fn lemma_lookup_finds_nearest_declaration(
    root: ScopeView,
    target: u32,
    name: Seq<char>,
)
    requires
        distinct_ids(root),
        table_of(root) is Ok,
        ids_of_scope(root).contains(target),
    ensures
        visible_in_scope(root, target, name, None) is Some,
        lookup(table_of(root)->Ok_0, target, name) == visible_in_scope(
            root,
            target,
            name,
            None,
        )->Some_0,
{
    let table = table_of(root)->Ok_0;
    lemma_table_is_faithful(root);
    lemma_walk_inwards(table, root, target, name, None, 0);
}

/// A variable declared in an outer scope is visible from a branch nested in
/// it: what a lookup from the branch finds is the declaration of the branch
/// itself if it has one, and that of the outer scope if not.
pub proof fn lemma_outer_declaration_is_visible_inside(
    outer: ScopeView,
    inner: ScopeView,
    name: Seq<char>,
)
    requires
        distinct_ids(outer),
        table_of(outer) is Ok,
        is_branch_in(outer.statements, inner),
    ensures
        lookup(table_of(outer)->Ok_0, inner.id, name) == nearest(
            declared_in(inner.statements, name),
            declared_in(outer.statements, name),
        ),
{
    let here = nearest(declared_in(outer.statements, name), None);
    lemma_table_is_faithful(outer);
    assert(branches_in(outer.statements).contains(inner));
    lemma_lookup_finds_nearest_declaration(outer, inner.id, name);
    lemma_visible_in_branch(outer.statements, inner, inner.id, name, here);
}

/// A variable declared in a nested scope only is not visible from the
/// outermost scope: a lookup from there finds what that scope itself
/// declares, and nothing else.
pub proof fn lemma_inner_declaration_is_not_visible_outside(root: ScopeView, name: Seq<char>)
    requires
        distinct_ids(root),
        table_of(root) is Ok,
    ensures
        lookup(table_of(root)->Ok_0, root.id, name) == declared_in(root.statements, name),
{
    lemma_lookup_finds_nearest_declaration(root, root.id, name);
}

/// What holds of the numbering of the scopes nested in statements holds of
/// the scopes nested in the first `k` of them.
proof fn lemma_prefix_is_distinct(statements: Seq<StatementView>, k: int)
    requires
        0 <= k <= statements.len(),
        distinct_in_statements(statements),
    ensures
        distinct_in_statements(statements.take(k)),
        ids_in_statements(statements.take(k)).subset_of(ids_in_statements(statements)),
    decreases statements.len() - k,
{
    if k == statements.len() {
        assert(statements.take(k) =~= statements);
    } else {
        lemma_prefix_is_distinct(statements, k + 1);
        assert(statements.take(k + 1).drop_last() =~= statements.take(k));
    }
}

/// A declaration among statements is found under its name.
proof fn lemma_declaration_is_found(statements: Seq<StatementView>, i: int)
    requires
        0 <= i < statements.len(),
        statements[i] is VarDeclare,
    ensures
        declared_in(statements, statements[i]->name) is Some,
    decreases statements.len(),
{
    if i < statements.len() - 1 {
        lemma_declaration_is_found(statements.drop_last(), i);
    }
}

/// Duplicate declarations are rejected. A scope whose table could be built
/// declares no name twice: two declarations among its statements have
/// different names.
pub proof fn lemma_no_name_is_declared_twice(scope: ScopeView, i: int, j: int)
    requires
        distinct_ids(scope),
        table_of(scope) is Ok,
        0 <= i < j < scope.statements.len(),
        scope.statements[i] is VarDeclare,
        scope.statements[j] is VarDeclare,
    ensures
        scope.statements[i]->name != scope.statements[j]->name,
{
    let statements = scope.statements;
    let before = statements.take(j);
    let upto = statements.take(j + 1);
    lemma_table_of(scope);
    if filled(empty_table(), scope.id, upto) is Err {
        crate::symbol_table::lemma_filled_error(empty_table(), scope.id, statements, j + 1);
    }
    assert(upto.drop_last() =~= before);
    lemma_filled(empty_table(), scope.id, upto);
    let table = filled(empty_table(), scope.id, before)->Ok_0;
    lemma_with_statement(table, scope.id, statements[j]);
    lemma_prefix_is_distinct(statements, j);
    lemma_filled_is_faithful(scope.id, before);
    lemma_declaration_is_found(before, i);
}

} // verus!
