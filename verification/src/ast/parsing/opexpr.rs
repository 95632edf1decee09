use super::{ParseError, ParseResult};
use crate::ast::node::{Assignable, Expression};
use crate::location::Location;
use crate::operators::{precedence_rank, spec_op_precedence, op_precedence, Assignment, Binary, Precedence, Unary};
use crate::ast::refs::{expr_refs, target_refs, Sizes};
use vstd::prelude::*;

verus! {

/// An operator, or an operand together with where it starts.
#[derive(Debug)]
pub enum OpExpr {
    Binary(Binary),
    Unary(Unary),
    Assign(Assignment),
    Expr(Expression, Location),
}

impl OpExpr {
    pub fn is_binary(&self) -> (b: bool)
        ensures
            b == (*self is Binary),
    {
        matches!(self, OpExpr::Binary(_))
    }

    pub fn is_unary(&self) -> (b: bool)
        ensures
            b == (*self is Unary),
    {
        matches!(self, OpExpr::Unary(_))
    }

    pub fn is_assign(&self) -> (b: bool)
        ensures
            b == (*self is Assign),
    {
        matches!(self, OpExpr::Assign(_))
    }

    pub fn is_expr(&self) -> (b: bool)
        ensures
            b == (*self is Expr),
    {
        matches!(self, OpExpr::Expr(_, _))
    }
}

/// Whether `x` may follow `items`: an operand or a unary operator only where
/// an operand is not just before, a binary or assignment operator only right
/// after an operand.
pub open spec fn can_push(items: Seq<OpExpr>, x: OpExpr) -> bool {
    let after_expr = items.len() > 0 && items.last() is Expr;
    if x is Binary || x is Assign {
        after_expr
    } else {
        !after_expr
    }
}

/// Whether each item may follow the items before it.
pub open spec fn pushed_ok(items: Seq<OpExpr>) -> bool {
    forall|i: int| #![trigger items[i]] 0 <= i < items.len() ==> can_push(items.take(i), items[i])
}

/// Appending an item that may follow keeps every item where it may stand.
pub proof fn lemma_pushed_push(items: Seq<OpExpr>, x: OpExpr)
    requires
        pushed_ok(items),
        can_push(items, x),
    ensures
        pushed_ok(items.push(x)),
{
    let p = items.push(x);
    assert forall|i: int| #![trigger p[i]] 0 <= i < p.len() implies can_push(p.take(i), p[i]) by {
        if i < items.len() {
            assert(p.take(i) =~= items.take(i));
            assert(p[i] == items[i]);
        } else {
            assert(p.take(i) =~= items);
        }
    }
}

/// The operands and operators of an expression, in source order.
pub struct OpExprManager(pub Vec<OpExpr>);

impl OpExprManager {
    /// Whether the last item is an operand.
    pub fn after_expr(&self) -> (b: bool)
        ensures
            b == (self.0@.len() > 0 && self.0@.last() is Expr),
    {
        self.0.len() > 0 && self.0[self.0.len() - 1].is_expr()
    }

    pub fn new() -> (m: Self)
        ensures
            m.0@.len() == 0,
    {
        OpExprManager(Vec::new())
    }

    /// Appends `op_expr` where it may follow; hands it back otherwise.
    pub fn push(&mut self, op_expr: OpExpr) -> (r: Result<(), OpExpr>)
        ensures
            can_push(old(self).0@, op_expr) ==> r is Ok && final(self).0@ == old(self).0@.push(op_expr),
            !can_push(old(self).0@, op_expr) ==> r == Err::<(), OpExpr>(op_expr) && final(self).0@ == old(self).0@,
            pushed_ok(old(self).0@) ==> pushed_ok(final(self).0@),
    {
        proof {
            if pushed_ok(self.0@) && can_push(self.0@, op_expr) {
                lemma_pushed_push(self.0@, op_expr);
            }
        }
        let after_expr = self.0.len() > 0 && self.0[self.0.len() - 1].is_expr();
        let ok = if op_expr.is_binary() || op_expr.is_assign() {
            after_expr
        } else {
            !after_expr
        };
        if ok {
            self.0.push(op_expr);
            Ok(())
        } else {
            Err(op_expr)
        }
    }
}

/// The assignment target an expression denotes, if any.
pub open spec fn assignable_of(e: Expression) -> Option<Assignable> {
    match e {
        Expression::Identifier(s) => Some(Assignable::Identifier(s)),
        Expression::IndexAccess { item, index } => Some(Assignable::IndexAccess { item, index }),
        Expression::PropertyAccess { item, property } => Some(Assignable::PropertyAccess { item, property }),
        _ => None,
    }
}

pub fn try_into_assignable(e: Expression) -> (r: Result<Assignable, Expression>)
    ensures
        match assignable_of(e) {
            Some(a) => r == Ok::<Assignable, Expression>(a),
            None => r == Err::<Assignable, Expression>(e),
        },
{
    match e {
        Expression::Identifier(s) => Ok(Assignable::Identifier(s)),
        Expression::IndexAccess { item, index } => Ok(Assignable::IndexAccess { item, index }),
        Expression::PropertyAccess { item, property } => Ok(Assignable::PropertyAccess { item, property }),
        _ => Err(e),
    }
}

/// `s` back to front.
pub open spec fn rev<T>(s: Seq<T>) -> Seq<T> {
    Seq::new(s.len(), |i: int| s[s.len() - 1 - i])
}

/// Applies a unary operator, or puts anything else, in front of `done`.
pub open spec fn unary_step(x: OpExpr, done: Seq<OpExpr>) -> ParseResult<Seq<OpExpr>> {
    match x {
        OpExpr::Unary(u) => if done.len() > 0 && done[0] is Expr {
            Ok(seq![OpExpr::Expr(Expression::Unary { op: u, expr: Box::new(done[0]->Expr_0) }, done[0]->Expr_1)] + done.drop_first())
        } else {
            Err(ParseError::UnexpectedEOF)
        },
        _ => Ok(seq![x] + done),
    }
}

/// Applies the unary operators of `prefix` from right to left, in front of `done`:
/// each unary operator takes the operand right after it.
pub open spec fn collapse_onto(prefix: Seq<OpExpr>, done: Seq<OpExpr>) -> ParseResult<Seq<OpExpr>>
    decreases prefix.len(),
{
    if prefix.len() == 0 {
        Ok(done)
    } else {
        match unary_step(prefix.last(), done) {
            Ok(d) => collapse_onto(prefix.drop_last(), d),
            Err(e) => Err(e),
        }
    }
}

pub open spec fn prepend_ops(p: Seq<OpExpr>, r: ParseResult<Seq<OpExpr>>) -> ParseResult<Seq<OpExpr>> {
    match r {
        Ok(x) => Ok(p + x),
        Err(e) => Err(e),
    }
}

/// Joins, from left to right, each binary operator of level `p` with the
/// operands on both sides; the joined operand keeps the right operand's location.
pub open spec fn fold_level(items: Seq<OpExpr>, p: Precedence) -> ParseResult<Seq<OpExpr>>
    decreases items.len(),
{
    if items.len() == 0 {
        Ok(Seq::empty())
    } else if items.len() >= 2 && items[0] is Expr && items[1] is Binary && spec_op_precedence(items[1]->Binary_0) == p {
        if items.len() >= 3 && items[2] is Expr {
            fold_level(
                seq![OpExpr::Expr(Expression::Binary { op: items[1]->Binary_0, left: Box::new(items[0]->Expr_0), right: Box::new(items[2]->Expr_0) }, items[2]->Expr_1)] + items.skip(3),
                p,
            )
        } else {
            Err(ParseError::UnexpectedEOF)
        }
    } else {
        prepend_ops(seq![items[0]], fold_level(items.drop_first(), p))
    }
}

/// Joins, from left to right, each assignment operator with the operands on
/// both sides; the left operand must denote an assignment target.
pub open spec fn fold_assign(items: Seq<OpExpr>) -> ParseResult<Seq<OpExpr>>
    decreases items.len(),
{
    if items.len() == 0 {
        Ok(Seq::empty())
    } else if items.len() >= 2 && items[0] is Expr && items[1] is Assign {
        if items.len() >= 3 && items[2] is Expr {
            match assignable_of(items[0]->Expr_0) {
                Some(a) => fold_assign(
                    seq![OpExpr::Expr(Expression::Assignment { op: items[1]->Assign_0, left: a, right: Box::new(items[2]->Expr_0) }, items[2]->Expr_1)] + items.skip(3),
                ),
                None => Err(ParseError::IllegalLeftExpression(items[0]->Expr_1)),
            }
        } else {
            Err(ParseError::UnexpectedEOF)
        }
    } else {
        prepend_ops(seq![items[0]], fold_assign(items.drop_first()))
    }
}

/// The only operand left, if exactly one is.
pub open spec fn single_expr(items: Seq<OpExpr>) -> ParseResult<Expression> {
    if items.len() == 1 && items[0] is Expr {
        Ok(items[0]->Expr_0)
    } else {
        Err(ParseError::UnexpectedEOF)
    }
}

/// The binary levels, tightest first.
pub open spec fn level_at(k: int) -> Precedence {
    if k == 0 {
        Precedence::MultDiv
    } else if k == 1 {
        Precedence::AddSub
    } else if k == 2 {
        Precedence::RelLog
    } else if k == 3 {
        Precedence::Equality
    } else if k == 4 {
        Precedence::LogAnd
    } else {
        Precedence::LogOr
    }
}

/// Folds the binary levels `k..6` in turn.
pub open spec fn fold_levels_from(items: Seq<OpExpr>, k: int) -> ParseResult<Seq<OpExpr>>
    decreases 6 - k,
{
    if k >= 6 || k < 0 {
        Ok(items)
    } else {
        match fold_level(items, level_at(k)) {
            Ok(r) => fold_levels_from(r, k + 1),
            Err(e) => Err(e),
        }
    }
}

/// The expression that a sequence of operands and operators stands for:
/// unary operators bind tightest, then the binary operators from the tightest
/// level to the loosest, each level from left to right, then assignments.
pub open spec fn resolve_spec(items: Seq<OpExpr>) -> ParseResult<Expression> {
    match collapse_onto(items, Seq::empty()) {
        Err(e) => Err(e),
        Ok(a) => match fold_levels_from(a, 0) {
            Err(e) => Err(e),
            Ok(b) => match fold_assign(b) {
                Err(e) => Err(e),
                Ok(c) => single_expr(c),
            },
        },
    }
}

/// Whether the items are operands joined by binary operators: operands at
/// the even places, binary operators at the odd ones, an operand last.
pub open spec fn operand_chain(items: Seq<OpExpr>) -> bool {
    &&& items.len() % 2 == 1
    &&& forall|i: int| 0 <= i < items.len() ==> (#[trigger] items[i] is Expr) == (i % 2 == 0)
    &&& forall|i: int| 0 <= i < items.len() && i % 2 == 1 ==> #[trigger] items[i] is Binary
}

/// Whether no binary operator of level `p` is among the items.
pub open spec fn no_level(items: Seq<OpExpr>, p: Precedence) -> bool {
    forall|i: int| 0 <= i < items.len() && #[trigger] items[i] is Binary ==> spec_op_precedence(items[i]->Binary_0) != p
}

proof fn lemma_fold_level_chain(items: Seq<OpExpr>, p: Precedence)
    requires
        operand_chain(items),
    ensures
        fold_level(items, p) matches Ok(t) && operand_chain(t) && no_level(t, p)
            && forall|q: Precedence| no_level(items, q) ==> #[trigger] no_level(t, q),
    decreases items.len(),
{
    assert(items[0] is Expr);
    if items.len() == 1 {
        assert(items.drop_first() =~= Seq::<OpExpr>::empty());
        assert(fold_level(items.drop_first(), p) == Ok::<Seq<OpExpr>, ParseError>(Seq::empty()));
        assert(seq![items[0]] + Seq::<OpExpr>::empty() =~= items);
    } else {
        assert(items[1] is Binary);
        assert(items[2] is Expr);
        if spec_op_precedence(items[1]->Binary_0) == p {
            let x = OpExpr::Expr(
                Expression::Binary { op: items[1]->Binary_0, left: Box::new(items[0]->Expr_0), right: Box::new(items[2]->Expr_0) },
                items[2]->Expr_1,
            );
            let next = seq![x] + items.skip(3);
            assert forall|i: int| 0 <= i < next.len() implies (#[trigger] next[i] is Expr) == (i % 2 == 0) by {
                if i > 0 {
                    assert(next[i] == items[i + 2]);
                }
            }
            assert forall|i: int| 0 <= i < next.len() && i % 2 == 1 implies #[trigger] next[i] is Binary by {
                assert(next[i] == items[i + 2]);
            }
            assert forall|q: Precedence| no_level(items, q) implies #[trigger] no_level(next, q) by {
                assert forall|i: int| 0 <= i < next.len() && #[trigger] next[i] is Binary implies spec_op_precedence(next[i]->Binary_0) != q by {
                    assert(next[i] == items[i + 2]);
                }
            }
            lemma_fold_level_chain(next, p);
        } else {
            let rest = items.skip(2);
            assert forall|i: int| 0 <= i < rest.len() implies (#[trigger] rest[i] is Expr) == (i % 2 == 0) by {
                assert(rest[i] == items[i + 2]);
            }
            assert forall|i: int| 0 <= i < rest.len() && i % 2 == 1 implies #[trigger] rest[i] is Binary by {
                assert(rest[i] == items[i + 2]);
            }
            assert forall|q: Precedence| no_level(items, q) implies #[trigger] no_level(rest, q) by {
                assert forall|i: int| 0 <= i < rest.len() && #[trigger] rest[i] is Binary implies spec_op_precedence(rest[i]->Binary_0) != q by {
                    assert(rest[i] == items[i + 2]);
                }
            }
            lemma_fold_level_chain(rest, p);
            let t1 = fold_level(rest, p)->Ok_0;
            assert(items.drop_first().drop_first() =~= rest);
            assert(!(items.drop_first()[0] is Expr));
            assert(fold_level(items.drop_first(), p) == prepend_ops(seq![items[1]], fold_level(rest, p)));
            let t = seq![items[0]] + (seq![items[1]] + t1);
            assert(fold_level(items, p) == Ok::<Seq<OpExpr>, ParseError>(t));
            assert forall|i: int| 0 <= i < t.len() implies (#[trigger] t[i] is Expr) == (i % 2 == 0) by {
                if i >= 2 {
                    assert(t[i] == t1[i - 2]);
                }
            }
            assert forall|i: int| 0 <= i < t.len() && i % 2 == 1 implies #[trigger] t[i] is Binary by {
                if i >= 2 {
                    assert(t[i] == t1[i - 2]);
                }
            }
            assert forall|i: int| 0 <= i < t.len() && #[trigger] t[i] is Binary implies spec_op_precedence(t[i]->Binary_0) != p by {
                if i >= 2 {
                    assert(t[i] == t1[i - 2]);
                }
            }
            assert forall|q: Precedence| no_level(items, q) implies #[trigger] no_level(t, q) by {
                assert(no_level(rest, q));
                assert(no_level(t1, q));
                assert forall|i: int| 0 <= i < t.len() && #[trigger] t[i] is Binary implies spec_op_precedence(t[i]->Binary_0) != q by {
                    if i >= 2 {
                        assert(t[i] == t1[i - 2]);
                    } else {
                        assert(t[i] == items[i]);
                        assert(items[i] is Binary);
                    }
                }
            }
        }
    }
}

proof fn lemma_fold_levels_chain(items: Seq<OpExpr>, k: int)
    requires
        operand_chain(items),
        0 <= k <= 6,
    ensures
        fold_levels_from(items, k) matches Ok(t) && operand_chain(t)
            && (forall|j: int| k <= j < 6 ==> #[trigger] no_level(t, level_at(j)))
            && forall|q: Precedence| no_level(items, q) ==> #[trigger] no_level(t, q),
    decreases 6 - k,
{
    if k < 6 {
        lemma_fold_level_chain(items, level_at(k));
        let t1 = fold_level(items, level_at(k))->Ok_0;
        lemma_fold_levels_chain(t1, k + 1);
    }
}

/// Operands joined by binary operators always stand for one expression:
/// every operator finds its two operands, whatever their levels.
pub proof fn law_operand_chain_resolves(items: Seq<OpExpr>)
    requires
        operand_chain(items),
    ensures
        resolve_spec(items) is Ok,
{
    lemma_collapse_plain(items, Seq::empty());
    assert(items + Seq::<OpExpr>::empty() =~= items);
    lemma_fold_levels_chain(items, 0);
    let t = fold_levels_from(items, 0)->Ok_0;
    assert(no_level(t, level_at(0)) && no_level(t, level_at(1)) && no_level(t, level_at(2)) && no_level(t, level_at(3))
        && no_level(t, level_at(4)) && no_level(t, level_at(5)));
    if t.len() > 1 {
        assert(t[1] is Binary);
        assert(!no_level(t, spec_op_precedence(t[1]->Binary_0)));
        assert(false);
    }
    assert(t.len() == 1);
    assert(t[0] is Expr);
    reveal_with_fuel(fold_assign, 2);
    assert(t.drop_first() =~= Seq::<OpExpr>::empty());
    assert(seq![t[0]] + Seq::<OpExpr>::empty() =~= t);
    assert(fold_assign(t) == Ok::<Seq<OpExpr>, ParseError>(t));
}

/// Collapsing items with no unary operator leaves them as they are.
proof fn lemma_collapse_plain(prefix: Seq<OpExpr>, done: Seq<OpExpr>)
    requires
        forall|i: int| 0 <= i < prefix.len() ==> !(#[trigger] prefix[i] is Unary),
    ensures
        collapse_onto(prefix, done) == Ok::<Seq<OpExpr>, ParseError>(prefix + done),
    decreases prefix.len(),
{
    if prefix.len() > 0 {
        let x = prefix.last();
        assert(!(x is Unary));
        assert(unary_step(x, done) == Ok::<Seq<OpExpr>, ParseError>(seq![x] + done));
        assert forall|i: int| 0 <= i < prefix.drop_last().len() implies !(#[trigger] prefix.drop_last()[i] is Unary) by {
            assert(prefix.drop_last()[i] == prefix[i]);
        }
        lemma_collapse_plain(prefix.drop_last(), seq![x] + done);
        assert(prefix.drop_last() + (seq![x] + done) =~= prefix + done);
    }
}

/// How tightly each binary operator binds, as the language guide lists
/// them from highest to lowest: multiplication and division (`/ * %`),
/// addition and subtraction, comparison (`> < <= >= == !=`), logical and,
/// logical or.
pub open spec fn guide_rank(op: Binary) -> nat {
    match op {
        Binary::Div | Binary::Mult | Binary::Mod => 5,
        Binary::Plus | Binary::Minus => 4,
        Binary::GreaterThan | Binary::LessThan | Binary::LessEq | Binary::GreaterEq | Binary::Equal | Binary::NotEqual => 3,
        Binary::LogicalAnd => 2,
        Binary::LogicalOr => 1,
    }
}

/// The place of a level in the order in which levels are folded.
spec fn level_index(p: Precedence) -> int {
    match p {
        Precedence::MultDiv => 0,
        Precedence::AddSub => 1,
        Precedence::RelLog => 2,
        Precedence::Equality => 3,
        Precedence::LogAnd => 4,
        Precedence::LogOr => 5,
    }
}

spec fn op_index(o: Binary) -> int {
    level_index(spec_op_precedence(o))
}

spec fn bin(o: Binary, x: Expression, y: Expression) -> Expression {
    Expression::Binary { op: o, left: Box::new(x), right: Box::new(y) }
}

proof fn lemma_level_at_index(p: Precedence)
    ensures
        level_at(level_index(p)) == p,
        0 <= level_index(p) < 6,
{
}

proof fn lemma_levels_one(x: OpExpr, k: int)
    requires
        x is Expr,
        0 <= k <= 6,
    ensures
        fold_levels_from(seq![x], k) == Ok::<Seq<OpExpr>, ParseError>(seq![x]),
    decreases 6 - k,
{
    if k < 6 {
        reveal_with_fuel(fold_level, 2);
        assert(seq![x].drop_first() =~= Seq::<OpExpr>::empty());
        assert(seq![x] + Seq::<OpExpr>::empty() =~= seq![x]);
        assert(fold_level(seq![x], level_at(k)) == Ok::<Seq<OpExpr>, ParseError>(seq![x]));
        lemma_levels_one(x, k + 1);
    }
}

proof fn lemma_levels_three(x: Expression, lx: Location, o: Binary, y: Expression, ly: Location, k: int)
    requires
        0 <= k <= 6,
        op_index(o) >= k,
    ensures
        fold_levels_from(seq![OpExpr::Expr(x, lx), OpExpr::Binary(o), OpExpr::Expr(y, ly)], k) == Ok::<Seq<OpExpr>, ParseError>(
            if k < 6 { seq![OpExpr::Expr(bin(o, x, y), ly)] } else { seq![OpExpr::Expr(x, lx), OpExpr::Binary(o), OpExpr::Expr(y, ly)] }),
    decreases 6 - k,
{
    let t = seq![OpExpr::Expr(x, lx), OpExpr::Binary(o), OpExpr::Expr(y, ly)];
    lemma_level_at_index(spec_op_precedence(o));
    if k < 6 {
        reveal_with_fuel(fold_level, 3);
        let one = OpExpr::Expr(bin(o, x, y), ly);
        if op_index(o) == k {
            assert(t.skip(3) =~= Seq::<OpExpr>::empty());
            assert(seq![one] + Seq::<OpExpr>::empty() =~= seq![one]);
            assert(seq![one].drop_first() =~= Seq::<OpExpr>::empty());
            assert(fold_level(seq![one], level_at(k)) == prepend_ops(seq![one], fold_level(Seq::<OpExpr>::empty(), level_at(k))));
            assert(fold_level(t, level_at(k)) == Ok::<Seq<OpExpr>, ParseError>(seq![one]));
            lemma_levels_one(one, k + 1);
        } else {
            assert(t.drop_first() =~= seq![OpExpr::Binary(o), OpExpr::Expr(y, ly)]);
            assert(seq![OpExpr::Binary(o), OpExpr::Expr(y, ly)].drop_first() =~= seq![OpExpr::Expr(y, ly)]);
            assert(seq![OpExpr::Expr(y, ly)].drop_first() =~= Seq::<OpExpr>::empty());
            assert(fold_level(seq![OpExpr::Expr(y, ly)], level_at(k)) == Ok::<Seq<OpExpr>, ParseError>(seq![OpExpr::Expr(y, ly)]));
            assert(seq![OpExpr::Binary(o)] + seq![OpExpr::Expr(y, ly)] =~= seq![OpExpr::Binary(o), OpExpr::Expr(y, ly)]);
            assert(seq![OpExpr::Expr(x, lx)] + seq![OpExpr::Binary(o), OpExpr::Expr(y, ly)] =~= t);
            assert(fold_level(t, level_at(k)) == Ok::<Seq<OpExpr>, ParseError>(t));
            lemma_levels_three(x, lx, o, y, ly, k + 1);
        }
    }
}

#[verifier::rlimit(50)]
proof fn lemma_levels_five(
    x: Expression, lx: Location, o1: Binary, y: Expression, ly: Location, o2: Binary, z: Expression, lz: Location, k: int,
)
    requires
        0 <= k <= 6,
        op_index(o1) >= k,
        op_index(o2) >= k,
    ensures
        fold_levels_from(seq![OpExpr::Expr(x, lx), OpExpr::Binary(o1), OpExpr::Expr(y, ly), OpExpr::Binary(o2), OpExpr::Expr(z, lz)], k)
            == Ok::<Seq<OpExpr>, ParseError>(seq![OpExpr::Expr(
            if op_index(o2) < op_index(o1) { bin(o1, x, bin(o2, y, z)) } else { bin(o2, bin(o1, x, y), z) }, lz)]),
    decreases 6 - k,
{
    let ex = OpExpr::Expr(x, lx);
    let ey = OpExpr::Expr(y, ly);
    let ez = OpExpr::Expr(z, lz);
    let b1 = OpExpr::Binary(o1);
    let b2 = OpExpr::Binary(o2);
    let t = seq![ex, b1, ey, b2, ez];
    lemma_level_at_index(spec_op_precedence(o1));
    lemma_level_at_index(spec_op_precedence(o2));
    let p = level_at(k);
    let ez1 = OpExpr::Expr(bin(o1, x, y), ly);
    if op_index(o1) == k {
        assert(t.skip(3) =~= seq![b2, ez]);
        let t1 = seq![ez1] + seq![b2, ez];
        assert(fold_level(t, p) == fold_level(t1, p));
        if op_index(o2) == k {
            let e2 = OpExpr::Expr(bin(o2, bin(o1, x, y), z), lz);
            assert(t1 =~= seq![ez1, b2, ez]);
            assert(t1.skip(3) =~= Seq::<OpExpr>::empty());
            assert(seq![e2] + Seq::<OpExpr>::empty() =~= seq![e2]);
            assert(seq![e2].drop_first() =~= Seq::<OpExpr>::empty());
            assert(fold_level(seq![e2], p) == prepend_ops(seq![e2], fold_level(Seq::<OpExpr>::empty(), p)));
            assert(fold_level(t, p) == Ok::<Seq<OpExpr>, ParseError>(seq![e2]));
            lemma_levels_one(e2, k + 1);
        } else {
            assert(t1 =~= seq![ez1, b2, ez]);
            assert(t1.drop_first() =~= seq![b2, ez]);
            assert(seq![b2, ez].drop_first() =~= seq![ez]);
            assert(seq![ez].drop_first() =~= Seq::<OpExpr>::empty());
            assert(fold_level(seq![ez], p) == Ok::<Seq<OpExpr>, ParseError>(seq![ez]));
            assert(seq![b2] + seq![ez] =~= seq![b2, ez]);
            assert(seq![ez1] + seq![b2, ez] =~= t1);
            assert(fold_level(t, p) == Ok::<Seq<OpExpr>, ParseError>(t1));
            lemma_levels_three(bin(o1, x, y), ly, o2, z, lz, k + 1);
        }
    } else if op_index(o2) == k {
        let ez2 = OpExpr::Expr(bin(o2, y, z), lz);
        assert(t.drop_first() =~= seq![b1, ey, b2, ez]);
        assert(seq![b1, ey, b2, ez].drop_first() =~= seq![ey, b2, ez]);
        assert(seq![ey, b2, ez].skip(3) =~= Seq::<OpExpr>::empty());
        assert(seq![ez2] + Seq::<OpExpr>::empty() =~= seq![ez2]);
        assert(seq![ez2].drop_first() =~= Seq::<OpExpr>::empty());
        assert(fold_level(seq![ez2], p) == prepend_ops(seq![ez2], fold_level(Seq::<OpExpr>::empty(), p)));
        assert(fold_level(seq![ey, b2, ez], p) == Ok::<Seq<OpExpr>, ParseError>(seq![ez2]));
        assert(fold_level(seq![b1, ey, b2, ez], p) == prepend_ops(seq![b1], fold_level(seq![ey, b2, ez], p)));
        assert(fold_level(t, p) == prepend_ops(seq![ex], fold_level(seq![b1, ey, b2, ez], p)));
        assert(seq![b1] + seq![ez2] =~= seq![b1, ez2]);
        assert(seq![ex] + seq![b1, ez2] =~= seq![ex, b1, ez2]);
        assert(fold_level(t, p) == Ok::<Seq<OpExpr>, ParseError>(seq![ex, b1, ez2]));
        lemma_levels_three(x, lx, o1, bin(o2, y, z), lz, k + 1);
    } else {
        assert(t.drop_first() =~= seq![b1, ey, b2, ez]);
        assert(seq![b1, ey, b2, ez].drop_first() =~= seq![ey, b2, ez]);
        assert(seq![ey, b2, ez].drop_first() =~= seq![b2, ez]);
        assert(seq![b2, ez].drop_first() =~= seq![ez]);
        assert(seq![ez].drop_first() =~= Seq::<OpExpr>::empty());
        assert(fold_level(seq![ez], p) == Ok::<Seq<OpExpr>, ParseError>(seq![ez]));
        assert(seq![b2] + seq![ez] =~= seq![b2, ez]);
        assert(fold_level(seq![b2, ez], p) == Ok::<Seq<OpExpr>, ParseError>(seq![b2, ez]));
        assert(seq![ey] + seq![b2, ez] =~= seq![ey, b2, ez]);
        assert(fold_level(seq![ey, b2, ez], p) == prepend_ops(seq![ey], fold_level(seq![b2, ez], p)));
        assert(fold_level(seq![ey, b2, ez], p) == Ok::<Seq<OpExpr>, ParseError>(seq![ey, b2, ez]));
        assert(fold_level(seq![b1, ey, b2, ez], p) == prepend_ops(seq![b1], fold_level(seq![ey, b2, ez], p)));
        assert(fold_level(t, p) == prepend_ops(seq![ex], fold_level(seq![b1, ey, b2, ez], p)));
        assert(seq![b1] + seq![ey, b2, ez] =~= seq![b1, ey, b2, ez]);
        assert(seq![ex] + seq![b1, ey, b2, ez] =~= t);
        assert(fold_level(t, p) == Ok::<Seq<OpExpr>, ParseError>(t));
        lemma_levels_five(x, lx, o1, y, ly, o2, z, lz, k + 1);
    }
}

/// A unary operator binds tighter than any binary one: `-a o b` stands for
/// `(-a) o b`.
pub proof fn law_unary_binds_tightest(u: Unary, a: Expression, la: Location, o: Binary, b: Expression, lb: Location)
    ensures
        resolve_spec(seq![OpExpr::Unary(u), OpExpr::Expr(a, la), OpExpr::Binary(o), OpExpr::Expr(b, lb)]) == Ok::<Expression, ParseError>(
            Expression::Binary { op: o, left: Box::new(Expression::Unary { op: u, expr: Box::new(a) }), right: Box::new(b) }),
        resolve_spec(seq![OpExpr::Unary(u), OpExpr::Expr(a, la)]) == Ok::<Expression, ParseError>(
            Expression::Unary { op: u, expr: Box::new(a) }),
{
    let t = seq![OpExpr::Unary(u), OpExpr::Expr(a, la), OpExpr::Binary(o), OpExpr::Expr(b, lb)];
    let ua = OpExpr::Expr(Expression::Unary { op: u, expr: Box::new(a) }, la);
    let eb = OpExpr::Expr(b, lb);
    let bo = OpExpr::Binary(o);
    let ea = OpExpr::Expr(a, la);
    assert(t.drop_last() =~= seq![OpExpr::Unary(u), ea, bo]);
    assert(seq![OpExpr::Unary(u), ea, bo].drop_last() =~= seq![OpExpr::Unary(u), ea]);
    assert(seq![OpExpr::Unary(u), ea].drop_last() =~= seq![OpExpr::Unary(u)]);
    assert(seq![OpExpr::Unary(u)].drop_last() =~= Seq::<OpExpr>::empty());
    assert(unary_step(eb, Seq::empty()) == Ok::<Seq<OpExpr>, ParseError>(seq![eb])) by {
        assert(seq![eb] + Seq::<OpExpr>::empty() =~= seq![eb]);
    }
    assert(unary_step(bo, seq![eb]) == Ok::<Seq<OpExpr>, ParseError>(seq![bo, eb])) by {
        assert(seq![bo] + seq![eb] =~= seq![bo, eb]);
    }
    assert(unary_step(ea, seq![bo, eb]) == Ok::<Seq<OpExpr>, ParseError>(seq![ea, bo, eb])) by {
        assert(seq![ea] + seq![bo, eb] =~= seq![ea, bo, eb]);
    }
    assert(unary_step(OpExpr::Unary(u), seq![ea, bo, eb]) == Ok::<Seq<OpExpr>, ParseError>(seq![ua, bo, eb])) by {
        assert(seq![ua] + seq![ea, bo, eb].drop_first() =~= seq![ua, bo, eb]);
    }
    reveal_with_fuel(collapse_onto, 5);
    assert(collapse_onto(t, Seq::empty()) == Ok::<Seq<OpExpr>, ParseError>(seq![ua, bo, eb]));
    lemma_level_at_index(spec_op_precedence(o));
    lemma_levels_three(Expression::Unary { op: u, expr: Box::new(a) }, la, o, b, lb, 0);
    let one = seq![OpExpr::Expr(bin(o, Expression::Unary { op: u, expr: Box::new(a) }, b), lb)];
    reveal_with_fuel(fold_assign, 2);
    assert(one.drop_first() =~= Seq::<OpExpr>::empty());
    assert(seq![one[0]] + Seq::<OpExpr>::empty() =~= one);
    assert(fold_assign(one) == Ok::<Seq<OpExpr>, ParseError>(one));

    let t2 = seq![OpExpr::Unary(u), ea];
    assert(t2.drop_last() =~= seq![OpExpr::Unary(u)]);
    assert(unary_step(ea, Seq::empty()) == Ok::<Seq<OpExpr>, ParseError>(seq![ea])) by {
        assert(seq![ea] + Seq::<OpExpr>::empty() =~= seq![ea]);
    }
    assert(unary_step(OpExpr::Unary(u), seq![ea]) == Ok::<Seq<OpExpr>, ParseError>(seq![ua])) by {
        assert(seq![ua] + seq![ea].drop_first() =~= seq![ua]);
    }
    assert(collapse_onto(t2, Seq::empty()) == Ok::<Seq<OpExpr>, ParseError>(seq![ua]));
    lemma_levels_one(ua, 0);
    assert(seq![ua].drop_first() =~= Seq::<OpExpr>::empty());
    assert(seq![ua] + Seq::<OpExpr>::empty() =~= seq![ua]);
    assert(fold_assign(seq![ua]) == Ok::<Seq<OpExpr>, ParseError>(seq![ua]));
}

/// The precedence level of each binary operator orders the operators as the
/// guide ranks them.
pub proof fn law_op_precedence_ranks(o1: Binary, o2: Binary)
    ensures
        (precedence_rank(spec_op_precedence(o1)) > precedence_rank(spec_op_precedence(o2))) == (guide_rank(o1) > guide_rank(o2)),
        (spec_op_precedence(o1) == spec_op_precedence(o2)) == (guide_rank(o1) == guide_rank(o2)),
{
}

/// Of two binary operators in a row, the one that the guide ranks higher
/// binds first; of two with the same rank, the left one does.  So
/// `x o1 y o2 z` stands for `x o1 (y o2 z)` exactly when `o2` ranks above
/// `o1`, and for `(x o1 y) o2 z` otherwise: `1 + 6 / 2` is `1 + (6 / 2)`
/// and `8 / 4 * 2` is `(8 / 4) * 2`.
pub proof fn law_precedence(
    x: Expression, lx: Location, o1: Binary, y: Expression, ly: Location, o2: Binary, z: Expression, lz: Location,
)
    ensures
        resolve_spec(seq![OpExpr::Expr(x, lx), OpExpr::Binary(o1), OpExpr::Expr(y, ly), OpExpr::Binary(o2), OpExpr::Expr(z, lz)])
            == Ok::<Expression, ParseError>(if guide_rank(o2) > guide_rank(o1) {
            Expression::Binary { op: o1, left: Box::new(x), right: Box::new(Expression::Binary { op: o2, left: Box::new(y), right: Box::new(z) }) }
        } else {
            Expression::Binary { op: o2, left: Box::new(Expression::Binary { op: o1, left: Box::new(x), right: Box::new(y) }), right: Box::new(z) }
        }),
{
    let t = seq![OpExpr::Expr(x, lx), OpExpr::Binary(o1), OpExpr::Expr(y, ly), OpExpr::Binary(o2), OpExpr::Expr(z, lz)];
    assert forall|i: int| 0 <= i < t.len() implies !(#[trigger] t[i] is Unary) by {}
    lemma_collapse_plain(t, Seq::empty());
    assert(t + Seq::<OpExpr>::empty() =~= t);
    lemma_level_at_index(spec_op_precedence(o1));
    lemma_level_at_index(spec_op_precedence(o2));
    lemma_levels_five(x, lx, o1, y, ly, o2, z, lz, 0);
    let e = if op_index(o2) < op_index(o1) { bin(o1, x, bin(o2, y, z)) } else { bin(o2, bin(o1, x, y), z) };
    let one = seq![OpExpr::Expr(e, lz)];
    reveal_with_fuel(fold_assign, 2);
    assert(one.drop_first() =~= Seq::<OpExpr>::empty());
    assert(seq![one[0]] + Seq::<OpExpr>::empty() =~= one);
    assert(fold_assign(one) == Ok::<Seq<OpExpr>, ParseError>(one));
    assert((guide_rank(o2) > guide_rank(o1)) == (op_index(o2) < op_index(o1)));
}

/// An empty sequence stands for no expression.
pub proof fn lemma_resolve_empty()
    ensures
        resolve_spec(Seq::empty()) == Err::<Expression, ParseError>(ParseError::UnexpectedEOF),
{
    reveal_with_fuel(fold_levels_from, 7);
    let e = Seq::<OpExpr>::empty();
    assert(collapse_onto(e, e) == Ok::<Seq<OpExpr>, ParseError>(e));
    assert(fold_level(e, level_at(0)) == Ok::<Seq<OpExpr>, ParseError>(e));
    assert(fold_level(e, level_at(1)) == Ok::<Seq<OpExpr>, ParseError>(e));
    assert(fold_level(e, level_at(2)) == Ok::<Seq<OpExpr>, ParseError>(e));
    assert(fold_level(e, level_at(3)) == Ok::<Seq<OpExpr>, ParseError>(e));
    assert(fold_level(e, level_at(4)) == Ok::<Seq<OpExpr>, ParseError>(e));
    assert(fold_level(e, level_at(5)) == Ok::<Seq<OpExpr>, ParseError>(e));
    assert(fold_levels_from(e, 0) == Ok::<Seq<OpExpr>, ParseError>(e));
    assert(fold_assign(e) == Ok::<Seq<OpExpr>, ParseError>(e));
}

fn reverse_ops(v: Vec<OpExpr>) -> (r: Vec<OpExpr>)
    ensures
        r@ == rev(v@),
{
    let mut v = v;
    let ghost orig = v@;
    let mut r: Vec<OpExpr> = Vec::new();
    while v.len() > 0
        invariant
            v@ == orig.take(v@.len() as int),
            r@ == rev(orig).take(r@.len() as int),
            v@.len() + r@.len() == orig.len(),
        decreases v@.len(),
    {
        let x = v.pop().unwrap();
        r.push(x);
        assert(v@ =~= orig.take(v@.len() as int));
        assert(r@ =~= rev(orig).take(r@.len() as int));
    }
    assert(r@ =~= rev(orig));
    r
}

/// Applies the unary operators.
pub fn collapse_unary(items: Vec<OpExpr>) -> (r: ParseResult<Vec<OpExpr>>)
    ensures
        match (r, collapse_onto(items@, Seq::empty())) {
            (Ok(v), Ok(s)) => v@ == s,
            (Err(e), Err(se)) => e == se,
            _ => false,
        },
{
    let mut work = items;
    let ghost orig = work@;
    let mut acc: Vec<OpExpr> = Vec::new();
    assert(rev(acc@) =~= Seq::<OpExpr>::empty());
    while work.len() > 0
        invariant
            orig == items@,
            collapse_onto(orig, Seq::empty()) == collapse_onto(work@, rev(acc@)),
        decreases work@.len(),
    {
        let ghost before = work@;
        let ghost done = rev(acc@);
        let x = work.pop().unwrap();
        assert(before.drop_last() =~= work@);
        match x {
            OpExpr::Unary(u) => {
                let top = acc.pop();
                match top {
                    Some(OpExpr::Expr(e, l)) => {
                        assert(done[0] == OpExpr::Expr(e, l));
                        let ghost d = acc@;
                        acc.push(OpExpr::Expr(Expression::Unary { op: u, expr: Box::new(e) }, l));
                        assert(rev(acc@) =~= seq![OpExpr::Expr(Expression::Unary { op: u, expr: Box::new(e) }, l)] + done.drop_first());
                    },
                    Some(other) => {
                        assert(done[0] == other);
                        return Err(ParseError::UnexpectedEOF);
                    },
                    None => {
                        return Err(ParseError::UnexpectedEOF);
                    },
                }
            },
            other => {
                acc.push(other);
                assert(rev(acc@) =~= seq![other] + done);
            },
        }
    }
    Ok(reverse_ops(acc))
}

fn is_level_op(x: Option<&OpExpr>, p: Precedence) -> (b: bool)
    ensures
        b == (x matches Some(o) && *o is Binary && spec_op_precedence(o->Binary_0) == p),
{
    match x {
        Some(OpExpr::Binary(b)) => op_precedence(b) == p,
        _ => false,
    }
}

/// Joins the binary operators of one level with their operands.
pub fn fold_binary(items: Vec<OpExpr>, p: Precedence) -> (r: ParseResult<Vec<OpExpr>>)
    ensures
        match (r, fold_level(items@, p)) {
            (Ok(v), Ok(s)) => v@ == s,
            (Err(e), Err(se)) => e == se,
            _ => false,
        },
{
    let mut work = items;
    let ghost orig = work@;
    let mut out: Vec<OpExpr> = Vec::new();
    while work.len() > 0
        invariant
            orig == items@,
            fold_level(orig, p) == prepend_ops(out@, fold_level(work@, p)),
        decreases work@.len(),
    {
        let ghost before = work@;
        let x = work.remove(0);
        let joins = x.is_expr() && is_level_op(work.first(), p);
        if joins {
            let op = work.remove(0);
            if work.len() > 0 && work[0].is_expr() {
                let right = work.remove(0);
                match (x, op, right) {
                    (OpExpr::Expr(l, _), OpExpr::Binary(b), OpExpr::Expr(r, rl)) => {
                        let joined = OpExpr::Expr(Expression::Binary { op: b, left: Box::new(l), right: Box::new(r) }, rl);
                        work.insert(0, joined);
                        assert(work@ =~= seq![joined] + before.skip(3));
                    },
                    _ => {
                        assert(false);
                        return Err(ParseError::UnexpectedEOF);
                    },
                }
            } else {
                return Err(ParseError::UnexpectedEOF);
            }
        } else {
            let ghost o = out@;
            out.push(x);
            assert(before.drop_first() =~= work@);
            proof {
                match fold_level(work@, p) {
                    Ok(rest) => {
                        assert(out@ + rest =~= o + (seq![x] + rest));
                    },
                    Err(_) => {},
                }
            }
        }
    }
    assert(out@ + Seq::<OpExpr>::empty() =~= out@);
    Ok(out)
}

/// Joins the assignment operators with their operands.
pub fn fold_assignments(items: Vec<OpExpr>) -> (r: ParseResult<Vec<OpExpr>>)
    ensures
        match (r, fold_assign(items@)) {
            (Ok(v), Ok(s)) => v@ == s,
            (Err(e), Err(se)) => e == se,
            _ => false,
        },
{
    let mut work = items;
    let ghost orig = work@;
    let mut out: Vec<OpExpr> = Vec::new();
    while work.len() > 0
        invariant
            orig == items@,
            fold_assign(orig) == prepend_ops(out@, fold_assign(work@)),
        decreases work@.len(),
    {
        let ghost before = work@;
        let x = work.remove(0);
        let joins = x.is_expr() && work.len() > 0 && work[0].is_assign();
        if joins {
            let op = work.remove(0);
            if work.len() > 0 && work[0].is_expr() {
                let right = work.remove(0);
                match (x, op, right) {
                    (OpExpr::Expr(l, start), OpExpr::Assign(a), OpExpr::Expr(r, rl)) => {
                        match try_into_assignable(l) {
                            Ok(target) => {
                                let joined = OpExpr::Expr(Expression::Assignment { op: a, left: target, right: Box::new(r) }, rl);
                                work.insert(0, joined);
                                assert(work@ =~= seq![joined] + before.skip(3));
                            },
                            Err(_) => {
                                return Err(ParseError::IllegalLeftExpression(start));
                            },
                        }
                    },
                    _ => {
                        assert(false);
                        return Err(ParseError::UnexpectedEOF);
                    },
                }
            } else {
                return Err(ParseError::UnexpectedEOF);
            }
        } else {
            let ghost o = out@;
            out.push(x);
            assert(before.drop_first() =~= work@);
            proof {
                match fold_assign(work@) {
                    Ok(rest) => {
                        assert(out@ + rest =~= o + (seq![x] + rest));
                    },
                    Err(_) => {},
                }
            }
        }
    }
    assert(out@ + Seq::<OpExpr>::empty() =~= out@);
    Ok(out)
}

/// Builds the expression that a sequence of operands and operators stands for.
pub fn resolve(items: Vec<OpExpr>) -> (r: ParseResult<Expression>)
    ensures
        r == resolve_spec(items@),
{
    let mut cur = match collapse_unary(items) {
        Ok(v) => v,
        Err(e) => return Err(e),
    };
    let levels = [
        Precedence::MultDiv,
        Precedence::AddSub,
        Precedence::RelLog,
        Precedence::Equality,
        Precedence::LogAnd,
        Precedence::LogOr,
    ];
    let ghost a = cur@;
    let mut k: usize = 0;
    while k < 6
        invariant
            0 <= k <= 6,
            forall|j: int| 0 <= j < 6 ==> levels@[j] == level_at(j),
            collapse_onto(items@, Seq::empty()) == Ok::<Seq<OpExpr>, ParseError>(a),
            fold_levels_from(a, 0) == fold_levels_from(cur@, k as int),
        decreases 6 - k,
    {
        cur = match fold_binary(cur, levels[k]) {
            Ok(v) => v,
            Err(e) => return Err(e),
        };
        k = k + 1;
    }
    let mut last = match fold_assignments(cur) {
        Ok(v) => v,
        Err(e) => return Err(e),
    };
    if last.len() == 1 && last[0].is_expr() {
        match last.pop() {
            Some(OpExpr::Expr(e, _)) => Ok(e),
            _ => Err(ParseError::UnexpectedEOF),
        }
    } else {
        Err(ParseError::UnexpectedEOF)
    }
}

/// Whether every operand among `items` refers only to entries of tables of
/// sizes `z`.
pub open spec fn items_refs(items: Seq<OpExpr>, z: Sizes) -> bool {
    forall|i: int| 0 <= i < items.len() ==> ((#[trigger] items[i]) matches OpExpr::Expr(e, _) ==> expr_refs(e, z))
}

proof fn lemma_items_refs_concat(a: Seq<OpExpr>, b: Seq<OpExpr>, z: Sizes)
    requires
        items_refs(a, z),
        items_refs(b, z),
    ensures
        items_refs(a + b, z),
{
    assert forall|i: int| 0 <= i < (a + b).len() implies ((#[trigger] (a + b)[i]) matches OpExpr::Expr(e, _) ==> expr_refs(e, z)) by {
        if i < a.len() {
            assert((a + b)[i] == a[i]);
        } else {
            assert((a + b)[i] == b[i - a.len()]);
        }
    }
}

proof fn lemma_collapse_refs(prefix: Seq<OpExpr>, done: Seq<OpExpr>, z: Sizes)
    requires
        items_refs(prefix, z),
        items_refs(done, z),
    ensures
        collapse_onto(prefix, done) matches Ok(r) ==> items_refs(r, z),
    decreases prefix.len(),
{
    if prefix.len() > 0 {
        let x = prefix.last();
        assert(prefix[prefix.len() - 1] == x);
        assert(items_refs(prefix.drop_last(), z)) by {
            assert forall|i: int| 0 <= i < prefix.drop_last().len() implies ((#[trigger] prefix.drop_last()[i]) matches OpExpr::Expr(e, _) ==> expr_refs(e, z)) by {
                assert(prefix.drop_last()[i] == prefix[i]);
            }
        }
        match unary_step(x, done) {
            Ok(d) => {
                match x {
                    OpExpr::Unary(u) => {
                        assert(done[0] matches OpExpr::Expr(e, _) ==> expr_refs(e, z));
                        let y = OpExpr::Expr(Expression::Unary { op: u, expr: Box::new(done[0]->Expr_0) }, done[0]->Expr_1);
                        assert(items_refs(seq![y], z));
                        assert(items_refs(done.drop_first(), z)) by {
                            assert forall|i: int| 0 <= i < done.drop_first().len() implies ((#[trigger] done.drop_first()[i]) matches OpExpr::Expr(e, _) ==> expr_refs(e, z)) by {
                                assert(done.drop_first()[i] == done[i + 1]);
                            }
                        }
                        lemma_items_refs_concat(seq![y], done.drop_first(), z);
                    },
                    _ => {
                        assert(items_refs(seq![x], z));
                        lemma_items_refs_concat(seq![x], done, z);
                    },
                }
                lemma_collapse_refs(prefix.drop_last(), d, z);
            },
            Err(_) => {},
        }
    }
}

proof fn lemma_fold_level_refs(items: Seq<OpExpr>, p: Precedence, z: Sizes)
    requires
        items_refs(items, z),
    ensures
        fold_level(items, p) matches Ok(r) ==> items_refs(r, z),
    decreases items.len(),
{
    if items.len() == 0 {
    } else if items.len() >= 2 && items[0] is Expr && items[1] is Binary && spec_op_precedence(items[1]->Binary_0) == p {
        if items.len() >= 3 && items[2] is Expr {
            let y = OpExpr::Expr(Expression::Binary { op: items[1]->Binary_0, left: Box::new(items[0]->Expr_0), right: Box::new(items[2]->Expr_0) }, items[2]->Expr_1);
            assert(items[0] matches OpExpr::Expr(e, _) ==> expr_refs(e, z));
            assert(items[2] matches OpExpr::Expr(e, _) ==> expr_refs(e, z));
            assert(items_refs(seq![y], z));
            assert(items_refs(items.skip(3), z)) by {
                assert forall|i: int| 0 <= i < items.skip(3).len() implies ((#[trigger] items.skip(3)[i]) matches OpExpr::Expr(e, _) ==> expr_refs(e, z)) by {
                    assert(items.skip(3)[i] == items[i + 3]);
                }
            }
            lemma_items_refs_concat(seq![y], items.skip(3), z);
            lemma_fold_level_refs(seq![y] + items.skip(3), p, z);
        }
    } else {
        assert(items_refs(items.drop_first(), z)) by {
            assert forall|i: int| 0 <= i < items.drop_first().len() implies ((#[trigger] items.drop_first()[i]) matches OpExpr::Expr(e, _) ==> expr_refs(e, z)) by {
                assert(items.drop_first()[i] == items[i + 1]);
            }
        }
        lemma_fold_level_refs(items.drop_first(), p, z);
        assert(items[0] matches OpExpr::Expr(e, _) ==> expr_refs(e, z));
        assert(items_refs(seq![items[0]], z));
        match fold_level(items.drop_first(), p) {
            Ok(r) => lemma_items_refs_concat(seq![items[0]], r, z),
            Err(_) => {},
        }
    }
}

proof fn lemma_fold_levels_refs(items: Seq<OpExpr>, k: int, z: Sizes)
    requires
        items_refs(items, z),
    ensures
        fold_levels_from(items, k) matches Ok(r) ==> items_refs(r, z),
    decreases 6 - k,
{
    if 0 <= k < 6 {
        lemma_fold_level_refs(items, level_at(k), z);
        match fold_level(items, level_at(k)) {
            Ok(r) => lemma_fold_levels_refs(r, k + 1, z),
            Err(_) => {},
        }
    }
}

proof fn lemma_fold_assign_refs(items: Seq<OpExpr>, z: Sizes)
    requires
        items_refs(items, z),
    ensures
        fold_assign(items) matches Ok(r) ==> items_refs(r, z),
    decreases items.len(),
{
    if items.len() == 0 {
    } else if items.len() >= 2 && items[0] is Expr && items[1] is Assign {
        if items.len() >= 3 && items[2] is Expr {
            assert(items[0] matches OpExpr::Expr(e, _) ==> expr_refs(e, z));
            assert(items[2] matches OpExpr::Expr(e, _) ==> expr_refs(e, z));
            match assignable_of(items[0]->Expr_0) {
                Some(a) => {
                    assert(target_refs(a, z));
                    let y = OpExpr::Expr(Expression::Assignment { op: items[1]->Assign_0, left: a, right: Box::new(items[2]->Expr_0) }, items[2]->Expr_1);
                    assert(items_refs(seq![y], z));
                    assert(items_refs(items.skip(3), z)) by {
                        assert forall|i: int| 0 <= i < items.skip(3).len() implies ((#[trigger] items.skip(3)[i]) matches OpExpr::Expr(e, _) ==> expr_refs(e, z)) by {
                            assert(items.skip(3)[i] == items[i + 3]);
                        }
                    }
                    lemma_items_refs_concat(seq![y], items.skip(3), z);
                    lemma_fold_assign_refs(seq![y] + items.skip(3), z);
                },
                None => {},
            }
        }
    } else {
        assert(items_refs(items.drop_first(), z)) by {
            assert forall|i: int| 0 <= i < items.drop_first().len() implies ((#[trigger] items.drop_first()[i]) matches OpExpr::Expr(e, _) ==> expr_refs(e, z)) by {
                assert(items.drop_first()[i] == items[i + 1]);
            }
        }
        lemma_fold_assign_refs(items.drop_first(), z);
        assert(items[0] matches OpExpr::Expr(e, _) ==> expr_refs(e, z));
        assert(items_refs(seq![items[0]], z));
        match fold_assign(items.drop_first()) {
            Ok(r) => lemma_items_refs_concat(seq![items[0]], r, z),
            Err(_) => {},
        }
    }
}

/// The expression that operands and operators stand for refers only to
/// what its operands refer to.
pub proof fn lemma_resolve_refs(items: Seq<OpExpr>, z: Sizes)
    requires
        items_refs(items, z),
    ensures
        resolve_spec(items) matches Ok(e) ==> expr_refs(e, z),
{
    assert(items_refs(Seq::<OpExpr>::empty(), z));
    lemma_collapse_refs(items, Seq::empty(), z);
    match collapse_onto(items, Seq::empty()) {
        Ok(a) => {
            lemma_fold_levels_refs(a, 0, z);
            match fold_levels_from(a, 0) {
                Ok(b) => {
                    lemma_fold_assign_refs(b, z);
                    match fold_assign(b) {
                        Ok(c) => {
                            if c.len() == 1 && c[0] is Expr {
                                assert(c[0] matches OpExpr::Expr(e, _) ==> expr_refs(e, z));
                            }
                        },
                        Err(_) => {},
                    }
                },
                Err(_) => {},
            }
        },
        Err(_) => {},
    }
}

/// Adding an item keeps the operands' references valid when the item's are.
pub proof fn lemma_items_refs_push(items: Seq<OpExpr>, x: OpExpr, z: Sizes)
    requires
        items_refs(items, z),
        x matches OpExpr::Expr(e, _) ==> expr_refs(e, z),
    ensures
        items_refs(items.push(x), z),
{
    assert forall|i: int| 0 <= i < items.push(x).len() implies ((#[trigger] items.push(x)[i]) matches OpExpr::Expr(e, _) ==> expr_refs(e, z)) by {
        if i < items.len() {
            assert(items.push(x)[i] == items[i]);
        }
    }
}

/// Growing the tables keeps the operands' references valid.
pub proof fn lemma_items_refs_grow(items: Seq<OpExpr>, z1: Sizes, z2: Sizes)
    requires
        items_refs(items, z1),
        crate::ast::refs::sizes_le(z1, z2),
    ensures
        items_refs(items, z2),
{
    assert forall|i: int| 0 <= i < items.len() implies ((#[trigger] items[i]) matches OpExpr::Expr(e, _) ==> expr_refs(e, z2)) by {
        match items[i] {
            OpExpr::Expr(e, _) => crate::ast::refs::lemma_expr_refs_grow(e, z1, z2),
            _ => {},
        }
    }
}

} // verus!
