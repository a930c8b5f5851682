//! How operators group: a description of the tree of an expression that
//! does not follow the parser step by step, and the proof that the parser
//! builds that tree.
//!
//! An expression is read as a chain: an operand, then operators and operands
//! in turn. Of the operators of a chain, the one that binds loosest is the
//! root of the tree; of several that bind equally loosely, the last, so that
//! equal operators group to the left. What stands left and right of the root
//! groups in the same way.

use crate::ast::{BinOp, ExprView};
use crate::parser::{
    binary, expression_at, operator_at, operators_at, primary_at, taking, tighter_at, tokens_left,
    ExprResult, ParseErrorView,
};
use crate::tokenizer::TokenView;
use vstd::prelude::*;

verus! {

/// The place of the operator that binds loosest; of several that bind
/// equally loosely, the last.
pub open spec fn loosest(operators: Seq<BinOp>) -> int
    decreases operators.len(),
{
    if operators.len() <= 1 {
        0
    } else {
        let k = loosest(operators.drop_last());
        if operators.last().spec_precedence() <= operators[k].spec_precedence() {
            operators.len() - 1
        } else {
            k
        }
    }
}

/// True when `k` is the place of the last of the operators that bind
/// loosest: none binds looser, and none after it binds as loosely.
pub open spec fn is_loosest(operators: Seq<BinOp>, k: int) -> bool {
    &&& 0 <= k < operators.len()
    &&& forall|i: int|
        0 <= i < operators.len() ==> operators[k].spec_precedence()
            <= #[trigger] operators[i].spec_precedence()
    &&& forall|i: int|
        k < i < operators.len() ==> operators[k].spec_precedence()
            < #[trigger] operators[i].spec_precedence()
}

/// [`loosest`] finds the last of the operators that bind loosest.
pub proof fn lemma_loosest(operators: Seq<BinOp>)
    requires
        operators.len() > 0,
    ensures
        is_loosest(operators, loosest(operators)),
    decreases operators.len(),
{
    if operators.len() > 1 {
        let before = operators.drop_last();
        lemma_loosest(before);
        let k = loosest(before);
        assert(forall|i: int| 0 <= i < before.len() ==> before[i] == operators[i]);
        assert forall|i: int| 0 <= i < operators.len() implies operators[loosest(
            operators,
        )].spec_precedence() <= #[trigger] operators[i].spec_precedence() by {}
        assert forall|i: int| loosest(operators) < i < operators.len() implies operators[loosest(
            operators,
        )].spec_precedence() < #[trigger] operators[i].spec_precedence() by {}
    }
}

/// There is one place that is the last of the loosest.
pub proof fn lemma_loosest_is_unique(operators: Seq<BinOp>, k: int)
    requires
        is_loosest(operators, k),
    ensures
        loosest(operators) == k,
{
    lemma_loosest(operators);
    let other = loosest(operators);
}

/// The tree of a chain of operands with the operators between them. The
/// loosest operator is the root; what stands before it is its left operand,
/// what stands after it its right operand, each grouped in the same way.
/// There is one operand more than there are operators.
pub open spec fn grouped(operands: Seq<ExprView>, operators: Seq<BinOp>) -> ExprView
    decreases operators.len(),
{
    if operators.len() == 0 {
        operands[0]
    } else {
        let k = loosest(operators);
        proof {
            lemma_loosest(operators);
        }
        binary(
            operators[k],
            grouped(operands.take(k + 1), operators.take(k)),
            grouped(operands.skip(k + 1), operators.skip(k + 1)),
        )
    }
}

/// True when every operator of `operators` binds at least as tightly as
/// `floor`.
pub open spec fn all_at_least(operators: Seq<BinOp>, floor: int) -> bool {
    forall|i: int| 0 <= i < operators.len() ==> #[trigger] operators[i].spec_precedence() >= floor
}

/// A chain that goes on with an operator that binds no tighter than any
/// operator before groups in two steps: first the chain up to that
/// operator, then the result with the rest.
pub proof fn lemma_grouped_in_two_steps(
    first: ExprView,
    operands_a: Seq<ExprView>,
    operators_a: Seq<BinOp>,
    operands_b: Seq<ExprView>,
    operators_b: Seq<BinOp>,
)
    requires
        operands_a.len() == operators_a.len(),
        operands_b.len() == operators_b.len(),
        operators_b.len() > 0 ==> all_at_least(operators_a, operators_b[0].spec_precedence() as int),
    ensures
        grouped(seq![first] + operands_a + operands_b, operators_a + operators_b) == grouped(
            seq![grouped(seq![first] + operands_a, operators_a)] + operands_b,
            operators_b,
        ),
    decreases operators_b.len(),
{
    let head = grouped(seq![first] + operands_a, operators_a);
    let operands = seq![first] + operands_a + operands_b;
    let operators = operators_a + operators_b;
    let na = operators_a.len() as int;
    if operators_b.len() > 0 {
        lemma_loosest(operators_b);
        let kb = loosest(operators_b);
        let k = na + kb;
        assert(is_loosest(operators, k)) by {
            assert forall|i: int| 0 <= i < operators.len() implies operators[k].spec_precedence()
                <= #[trigger] operators[i].spec_precedence() by {}
            assert forall|i: int| k < i < operators.len() implies operators[k].spec_precedence()
                < #[trigger] operators[i].spec_precedence() by {}
        }
        lemma_loosest_is_unique(operators, k);
        // The right operand of the root is the same on both sides.
        let joined = seq![head] + operands_b;
        assert(operands.skip(k + 1) =~= operands_b.skip(kb));
        assert(joined.skip(kb + 1) =~= operands_b.skip(kb));
        assert(operators.skip(k + 1) =~= operators_b.skip(kb + 1));
        // The left operand is a shorter chain of the same form.
        let left_operands = operands_b.take(kb);
        let left_operators = operators_b.take(kb);
        assert(operands.take(k + 1) =~= seq![first] + operands_a + left_operands);
        assert(operators.take(k) =~= operators_a + left_operators);
        assert(joined.take(kb + 1) =~= seq![head] + left_operands);
        lemma_grouped_in_two_steps(
            first,
            operands_a,
            operators_a,
            left_operands,
            left_operators,
        );
    }
}

/// The operands and operators of a chain, with the number of tokens they
/// take, or the error of an operand.
pub type LinksResult = Result<(Seq<ExprView>, Seq<BinOp>, nat), ParseErrorView>;

/// The chain that goes on at `pos`: operators that bind at least as tightly
/// as `floor`, each with the operand after it. The chain ends before the
/// first token that is no such operator.
pub open spec fn links_at(ts: Seq<TokenView>, pos: int, floor: int) -> LinksResult
    decreases tokens_left(ts, pos),
{
    match operator_at(ts, pos) {
        Some(op) => if op.spec_precedence() >= floor {
            match primary_at(ts, pos + 1) {
                Err(e) => Err(e),
                Ok((operand, n)) => with_link(op, operand, 1 + n, links_at(ts, pos + 1 + n, floor)),
            }
        } else {
            Ok((Seq::empty(), Seq::empty(), 0))
        },
        None => Ok((Seq::empty(), Seq::empty(), 0)),
    }
}

/// The chain `rest` with an operator and its operand, read in `n` tokens,
/// in front.
pub open spec fn with_link(op: BinOp, operand: ExprView, n: nat, rest: LinksResult) -> LinksResult {
    match rest {
        Ok((operands, operators, m)) => Ok((seq![operand] + operands, seq![op] + operators, n + m)),
        Err(e) => Err(e),
    }
}

/// The chain `rest` with the chain of `operands` and `operators`, read in
/// `n` tokens, in front.
pub open spec fn with_links(
    operands: Seq<ExprView>,
    operators: Seq<BinOp>,
    n: nat,
    rest: LinksResult,
) -> LinksResult {
    match rest {
        Ok((more_operands, more_operators, m)) => Ok(
            (operands + more_operands, operators + more_operators, n + m),
        ),
        Err(e) => Err(e),
    }
}

/// The tree of `first` and the chain `links` after it.
pub open spec fn joined(first: ExprView, links: LinksResult) -> ExprResult {
    match links {
        Ok((operands, operators, n)) => Ok((grouped(seq![first] + operands, operators), n)),
        Err(e) => Err(e),
    }
}

/// True when the chain that goes on at `pos` ends there for the floor
/// `floor`: no operator stands there, or one that binds looser.
pub open spec fn ends_at(ts: Seq<TokenView>, pos: int, floor: int) -> bool {
    match operator_at(ts, pos) {
        Some(op) => op.spec_precedence() < floor,
        None => true,
    }
}

/// What a chain holds: as many operands as operators, every operator at
/// least as tight as the floor, the first operator at the start of the
/// chain, and after the chain no operator that would go on with it.
pub proof fn lemma_links(ts: Seq<TokenView>, pos: int, floor: int)
    requires
        links_at(ts, pos, floor) is Ok,
    ensures
        ({
            let (operands, operators, n) = links_at(ts, pos, floor)->Ok_0;
            &&& operands.len() == operators.len()
            &&& all_at_least(operators, floor)
            &&& ends_at(ts, pos + n, floor)
            &&& operators.len() > 0 ==> operator_at(ts, pos) == Some(operators[0])
            &&& operators.len() == 0 ==> n == 0
        }),
    decreases tokens_left(ts, pos),
{
    match operator_at(ts, pos) {
        Some(op) => {
            if op.spec_precedence() >= floor {
                let (operand, n) = primary_at(ts, pos + 1)->Ok_0;
                lemma_links(ts, pos + 1 + n, floor);
            }
        },
        None => {},
    }
}

/// A chain read with a lower floor begins with the chain read with a
/// higher floor, and goes on from where that one ends.
pub proof fn lemma_links_go_on(ts: Seq<TokenView>, pos: int, high: int, low: int)
    requires
        low <= high,
    ensures
        links_at(ts, pos, low) == match links_at(ts, pos, high) {
            Ok((operands, operators, n)) => with_links(
                operands,
                operators,
                n,
                links_at(ts, pos + n, low),
            ),
            Err(e) => Err(e),
        },
    decreases tokens_left(ts, pos),
{
    match operator_at(ts, pos) {
        Some(op) => {
            if op.spec_precedence() >= high {
                match primary_at(ts, pos + 1) {
                    Ok((operand, n)) => {
                        lemma_links_go_on(ts, pos + 1 + n, high, low);
                        match links_at(ts, pos + 1 + n, high) {
                            Ok((operands, operators, m)) => {
                                match links_at(ts, pos + 1 + n + m, low) {
                                    Ok((more_operands, more_operators, k)) => {
                                        assert(seq![operand] + (operands + more_operands) =~= (
                                        seq![operand] + operands) + more_operands);
                                        assert(seq![op] + (operators + more_operators) =~= (seq![op]
                                            + operators) + more_operators);
                                    },
                                    Err(e) => {},
                                }
                            },
                            Err(e) => {},
                        }
                    },
                    Err(e) => {},
                }
            } else {
                let none = Seq::<ExprView>::empty();
                match links_at(ts, pos, low) {
                    Ok((operands, operators, n)) => {
                    },
                    Err(e) => {},
                }
            }
        },
        None => {
        },
    }
}

/// Precedence climbing groups by the loosest operator. What the parser
/// makes of `lhs` and the operators after it that bind at least as tightly
/// as `min` is the tree of the chain of these operators, with `lhs` as its
/// first operand.
pub proof fn lemma_operators_are_grouped(ts: Seq<TokenView>, pos: int, lhs: ExprView, min: u32)
    ensures
        operators_at(ts, pos, lhs, min) == joined(lhs, links_at(ts, pos, min as int)),
    decreases tokens_left(ts, pos), 2nat,
{
    let floor = min as int;
    match operator_at(ts, pos) {
        Some(op) => {
            if op.spec_precedence() >= min {
                match primary_at(ts, pos + 1) {
                    Ok((operand, n1)) => {
                        let after_operand = pos + 1 + n1;
                        let tight = op.spec_precedence() as int + 1;
                        lemma_tighter_are_grouped(ts, after_operand, operand, op);
                        lemma_links_go_on(ts, after_operand, tight, floor);
                        match links_at(ts, after_operand, tight) {
                            Ok((operands_a, operators_a, n2)) => {
                                let rhs = grouped(seq![operand] + operands_a, operators_a);
                                let left = binary(op, lhs, rhs);
                                let after_rhs = after_operand + n2;
                                lemma_links(ts, after_operand, tight);
                                lemma_operators_are_grouped(ts, after_rhs, left, min);
                                match links_at(ts, after_rhs, floor) {
                                    Ok((operands_b, operators_b, n3)) => {
                                        lemma_links(ts, after_rhs, floor);
                                        lemma_operator_then_rest(
                                            lhs,
                                            operand,
                                            operands_a,
                                            op,
                                            operators_a,
                                            operands_b,
                                            operators_b,
                                        );
                                    },
                                    Err(e) => {},
                                }
                            },
                            Err(e) => {},
                        }
                    },
                    Err(e) => {},
                }
            }
        },
        None => {
        },
    }
}

/// What the parser makes of `rhs`, the right operand of `op`, and the
/// operators after it that bind tighter than `op` is the tree of the chain
/// of these operators, with `rhs` as its first operand.
pub proof fn lemma_tighter_are_grouped(ts: Seq<TokenView>, pos: int, rhs: ExprView, op: BinOp)
    ensures
        tighter_at(ts, pos, rhs, op) == joined(
            rhs,
            links_at(ts, pos, op.spec_precedence() as int + 1),
        ),
    decreases tokens_left(ts, pos), 3nat,
{
    let tight = op.spec_precedence() as int + 1;
    match operator_at(ts, pos) {
        Some(next) => {
            if next.spec_precedence() > op.spec_precedence() {
                let floor = next.spec_precedence() as int;
                lemma_operators_are_grouped(ts, pos, rhs, next.spec_precedence());
                lemma_links_go_on(ts, pos, floor, tight);
                match links_at(ts, pos, floor) {
                    Ok((operands_a, operators_a, n1)) => {
                        lemma_links(ts, pos, floor);
                        let inner = grouped(seq![rhs] + operands_a, operators_a);
                        lemma_tighter_are_grouped(ts, pos + n1, inner, op);
                        match links_at(ts, pos + n1, tight) {
                            Ok((operands_b, operators_b, n2)) => {
                                lemma_links(ts, pos + n1, tight);
                                lemma_grouped_in_two_steps(
                                    rhs,
                                    operands_a,
                                    operators_a,
                                    operands_b,
                                    operators_b,
                                );
                                assert(seq![rhs] + (operands_a + operands_b) =~= seq![rhs]
                                    + operands_a + operands_b);
                            },
                            Err(e) => {},
                        }
                    },
                    Err(e) => {},
                }
            }
        },
        None => {
        },
    }
}

/// A chain that starts with an operator, goes on with tighter ones and then
/// with one that is no tighter than the first, groups in two steps: the
/// first operator takes the tighter ones into its right operand, and the
/// result is the first operand of the rest.
proof fn lemma_operator_then_rest(
    first: ExprView,
    second: ExprView,
    operands_a: Seq<ExprView>,
    op: BinOp,
    operators_a: Seq<BinOp>,
    operands_b: Seq<ExprView>,
    operators_b: Seq<BinOp>,
)
    requires
        operands_a.len() == operators_a.len(),
        operands_b.len() == operators_b.len(),
        all_at_least(operators_a, op.spec_precedence() as int + 1),
        operators_b.len() > 0 ==> operators_b[0].spec_precedence() <= op.spec_precedence(),
    ensures
        grouped(
            seq![first] + (seq![second] + (operands_a + operands_b)),
            seq![op] + (operators_a + operators_b),
        ) == grouped(
            seq![binary(op, first, grouped(seq![second] + operands_a, operators_a))] + operands_b,
            operators_b,
        ),
{
    let all_a = seq![op] + operators_a;
    lemma_first_is_loosest(first, second, operands_a, op, operators_a);
    assert(operators_b.len() > 0 ==> all_at_least(
        all_a,
        operators_b[0].spec_precedence() as int,
    )) by {
        if operators_b.len() > 0 {
            assert forall|i: int| 0 <= i < all_a.len() implies #[trigger] all_a[i].spec_precedence()
                >= operators_b[0].spec_precedence() by {}
        }
    }
    lemma_grouped_in_two_steps(first, seq![second] + operands_a, all_a, operands_b, operators_b);
    assert(seq![first] + (seq![second] + (operands_a + operands_b)) =~= seq![first] + (seq![
        second,
    ] + operands_a) + operands_b);
    assert(seq![op] + (operators_a + operators_b) =~= all_a + operators_b);
}

/// A chain whose first operator binds looser than all that follow has that
/// operator as its root.
proof fn lemma_first_is_loosest(
    first: ExprView,
    second: ExprView,
    operands: Seq<ExprView>,
    op: BinOp,
    operators: Seq<BinOp>,
)
    requires
        operands.len() == operators.len(),
        all_at_least(operators, op.spec_precedence() as int + 1),
    ensures
        grouped(seq![first] + (seq![second] + operands), seq![op] + operators) == binary(
            op,
            first,
            grouped(seq![second] + operands, operators),
        ),
{
    let all_operands = seq![first] + (seq![second] + operands);
    let all_operators = seq![op] + operators;
    assert(is_loosest(all_operators, 0)) by {
        assert forall|i: int| 0 < i < all_operators.len() implies all_operators[0].spec_precedence()
            < #[trigger] all_operators[i].spec_precedence() by {}
    }
    lemma_loosest_is_unique(all_operators, 0);
    assert(all_operands.take(1) =~= seq![first]);
    assert(all_operators.take(0) =~= Seq::<BinOp>::empty());
    assert(all_operands.skip(1) =~= seq![second] + operands);
    assert(all_operators.skip(1) =~= operators);
    assert(grouped(seq![first], Seq::<BinOp>::empty()) == first);
}

/// Precedence correctness. An expression is an operand and the chain of all
/// the operators and operands after it, grouped by the loosest operator:
/// tighter operators bind first, and operators that bind equally group to
/// the left.
pub proof fn lemma_expression_is_grouped(ts: Seq<TokenView>, pos: int)
    ensures
        expression_at(ts, pos) == match primary_at(ts, pos) {
            Err(e) => Err(e),
            Ok((first, n)) => taking(n, joined(first, links_at(ts, pos + n, 0))),
        },
{
    match primary_at(ts, pos) {
        Ok((first, n)) => {
            lemma_operators_are_grouped(ts, pos + n, first, 0);
        },
        Err(e) => {},
    }
}

} // verus!
