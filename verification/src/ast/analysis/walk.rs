use crate::ast::analysis::accepted::{
    body_names_bound, body_ok, body_plain, with_params, decls_fault, decls_free, lemma_decls_fault_prefix, decls_plain, nodes_fault,
    node_fault, pairs_fault, lemma_nodes_fault_prefix, lemma_pairs_fault_prefix, lemma_decls_plain_prefix, lemma_nodes_plain_prefix, lemma_pairs_plain_prefix, node_plain, nodes_plain, pairs_plain,
    pairs_ok, decls_ok, decls_shape, lemma_decls_ok_prefix, lemma_insert_shape, lemma_marks_same_shape, lemma_migrated_same_shape,
    lemma_nodes_ok_prefix, lemma_pairs_ok_prefix, lemma_shape_names, node_ok, node_shape, nodes_ok, nodes_shape, shape,
};
use crate::ast::analysis::capture::CaptureStack;
use crate::ast::analysis::scope::{sat_inc, DefData, DefType, LamPass, Scope, SubState};
use crate::ast::analysis::{lemma_count_take, lemma_same_slots_live, Lams, WalkError, WalkErrorType, WalkResult};
use crate::ast::node::{
    param_names, ConditionBodyPair, Declarator, Assignable, AutoPropValue, BreakType, Declaration, Expression, GetProp, Lambda, LambdaBody, Node,
    ObjectValue, SetProp,
};
use crate::location::Located;
use vstd::prelude::*;

verus! {

/// Two bindings that differ at most in the captured mark of a variable.
pub open spec fn same_binding(a: DefData, b: DefData) -> bool {
    &&& a.level == b.level
    &&& a.spec_is_mut() == b.spec_is_mut()
    &&& a.spec_is_import() == b.spec_is_import()
    &&& !a.spec_is_mut() ==> a == b
}

/// Every binding of `new` is the one of `old`, perhaps marked as captured.
pub open spec fn marks_only(old: Map<usize, DefData>, new: Map<usize, DefData>) -> bool {
    forall|k: usize|
        #![trigger new.contains_key(k)]
        #![trigger old.contains_key(k)]
        (new.contains_key(k) <==> old.contains_key(k)) && (old.contains_key(k) ==> same_binding(old[k], new[k]))
}

pub proof fn lemma_mark_marks(m: Map<usize, DefData>, name: usize)
    ensures
        marks_only(m, crate::ast::analysis::scope::mark(m, name)),
{
}

/// The names that a map binds to variables that may be assigned.
pub open spec fn mutable_names(m: Map<usize, DefData>) -> Set<usize> {
    Set::new(|k: usize| m.contains_key(k) && m[k].spec_is_mut())
}

/// Marking captures changes neither which names are bound nor which may be
/// assigned.
pub proof fn lemma_marks_same_names(a: Map<usize, DefData>, b: Map<usize, DefData>)
    requires
        marks_only(a, b),
    ensures
        a.dom() == b.dom(),
        mutable_names(a) == mutable_names(b),
{
    assert(a.dom() =~= b.dom());
    assert(mutable_names(a) =~= mutable_names(b)) by {
        assert forall|k: usize| mutable_names(a).contains(k) == mutable_names(b).contains(k) by {
            if a.contains_key(k) {
                assert(b.contains_key(k));
                assert(same_binding(a[k], b[k]));
            }
            if b.contains_key(k) {
                assert(a.contains_key(k));
            }
        }
    }
}

/// Whether every name that an expression reads is in `bound` and every
/// name it assigns is in `muts`, leaving out the bodies of lambdas, getters
/// and setters, which have scopes of their own.
pub open spec fn expr_names_bound(e: Expression, bound: Set<usize>, muts: Set<usize>) -> bool
    decreases e,
{
    match e {
        Expression::Identifier(i) => bound.contains(i.data),
        Expression::Unary { expr, .. } => expr_names_bound(*expr, bound, muts),
        Expression::Binary { left, right, .. } => expr_names_bound(*left, bound, muts) && expr_names_bound(*right, bound, muts),
        Expression::IndexAccess { item, index } => expr_names_bound(*item, bound, muts) && expr_names_bound(*index, bound, muts),
        Expression::PropertyAccess { item, .. } => expr_names_bound(*item, bound, muts),
        Expression::ArrayCreation(es) => exprs_names_bound(es@, bound, muts),
        Expression::FunctionCall { function, args } => expr_names_bound(*function, bound, muts) && exprs_names_bound(args@, bound, muts),
        Expression::Assignment { left, right, .. } => target_names_bound(left, bound, muts) && expr_names_bound(*right, bound, muts),
        Expression::Hash(h) => entries_names_bound(h@, bound, muts),
        Expression::MutableHash(h) => entries_names_bound(h@, bound, muts),
        _ => true,
    }
}

/// `expr_names_bound` for an assignment target: an assigned name must be
/// a variable that may be assigned.
pub open spec fn target_names_bound(a: Assignable, bound: Set<usize>, muts: Set<usize>) -> bool
    decreases a,
{
    match a {
        Assignable::Identifier(i) => bound.contains(i.data) && muts.contains(i.data),
        Assignable::IndexAccess { item, index } => expr_names_bound(*item, bound, muts) && expr_names_bound(*index, bound, muts),
        Assignable::PropertyAccess { item, .. } => expr_names_bound(*item, bound, muts),
    }
}

/// `expr_names_bound` for every expression of a list.
pub open spec fn exprs_names_bound(es: Seq<Expression>, bound: Set<usize>, muts: Set<usize>) -> bool
    decreases es,
{
    if es.len() == 0 {
        true
    } else {
        exprs_names_bound(es.drop_last(), bound, muts) && expr_names_bound(es.last(), bound, muts)
    }
}

/// `expr_names_bound` for the entries of a hash literal: a property bound
/// to a variable needs the variable, one with a setter a variable that may
/// be assigned.
pub open spec fn entries_names_bound(h: Seq<(usize, ObjectValue)>, bound: Set<usize>, muts: Set<usize>) -> bool
    decreases h,
{
    if h.len() == 0 {
        true
    } else {
        entries_names_bound(h.drop_last(), bound, muts) && entry_names_bound(h.last().1, bound, muts)
    }
}

/// Whether a lambda expression that refers to slot `ind` of the lambda
/// table passes where the bindings are `s` at depth `level`: its body passes
/// one level deeper, inside a function, with its parameters bound and `this`
/// allowed.  A slot out of the table, or one that is being walked, passes.
pub open spec fn lambda_accepted(table: Seq<Option<Lambda>>, ind: usize, s: crate::ast::analysis::accepted::Shape, level: usize) -> bool {
    if ind < table.len() {
        match table[ind as int] {
            Some(lam) => body_ok(
                lam.body,
                with_params(s, param_names(lam.param_list), sat_inc(level)),
                sat_inc(level),
                false,
                true,
                true,
            ),
            None => true,
        }
    } else {
        true
    }
}

/// A count of declarations since a loop or function began, after `k` more
/// (saturating); none outside any.
pub open spec fn bumped(o: Option<usize>, k: nat) -> Option<usize> {
    match o {
        Some(n) => Some(if n + k <= usize::MAX { (n + k) as usize } else { usize::MAX }),
        None => None,
    }
}

/// The declarations that a statement makes in its own scope.
pub open spec fn node_decls(n: Node) -> nat {
    match n {
        Node::Declaration(d) => d.declarations@.len(),
        _ => 0,
    }
}

/// Whether the walked statement `new` is the jump `old` with the count of
/// declarations it leaves behind recorded: those since the enclosing
/// function began for a `return`, since the enclosing loop began for a
/// `break` or `continue`.
pub open spec fn flow_marked(new: Node, old: Node, loop_allocs: Option<usize>, fnc_allocs: Option<usize>) -> bool {
    match (old, new) {
        (Node::ControlFlow(f), Node::ControlFlow(g)) => {
            &&& g.start == f.start
            &&& g.end == f.end
            &&& match f.kind {
                BreakType::Return(_) => g.kind is Return && fnc_allocs == Some(g.allocations),
                BreakType::Break => g.kind is Break && loop_allocs == Some(g.allocations),
                BreakType::Continue => g.kind is Continue && loop_allocs == Some(g.allocations),
            }
        },
        _ => false,
    }
}

/// What is known of the first error met when two parts are walked one
/// after the other: `Some(None)` when neither has one, `Some(Some(e))` for
/// the first error `e`, and `None` when it is not stated (a lambda, getter
/// or setter body comes first).
pub open spec fn first_fault(a: Option<Option<WalkError>>, b: Option<Option<WalkError>>) -> Option<Option<WalkError>> {
    match a {
        Some(None) => b,
        _ => a,
    }
}

/// The result of a walk that meets the given first error, if any.
pub open spec fn fault_result(f: Option<WalkError>) -> WalkResult {
    match f {
        None => Ok(()),
        Some(e) => Err(e),
    }
}

/// An unknown name at the given place.
pub open spec fn not_found(l: Located<usize>) -> WalkError {
    WalkError { start: l.start, end: l.end, kind: WalkErrorType::IdentifierNotFound(l.data) }
}

/// The error of assigning to the name at the given place, if any: it must
/// be visible, and a variable that may be assigned.
pub open spec fn assign_fault(l: Located<usize>, bound: Set<usize>, muts: Set<usize>) -> Option<WalkError> {
    if !bound.contains(l.data) {
        Some(not_found(l))
    } else if !muts.contains(l.data) {
        Some(WalkError { start: l.start, end: l.end, kind: WalkErrorType::ImmutableModification(l.data) })
    } else {
        None
    }
}

/// The first error that checking `e` meets, walking it in evaluation
/// order, where `bound` are the visible names, `muts` those that may be
/// assigned and `this_ok` whether `this` may stand here (see `first_fault`
/// for the meaning of the result).  What happens inside a lambda, getter or
/// setter body is not stated.
pub open spec fn expr_fault(e: Expression, bound: Set<usize>, muts: Set<usize>, this_ok: bool) -> Option<Option<WalkError>>
    decreases e,
{
    match e {
        Expression::Identifier(i) => if bound.contains(i.data) {
            Some(None)
        } else {
            Some(Some(not_found(i)))
        },
        Expression::This { start, end } => if this_ok {
            Some(None)
        } else {
            Some(Some(WalkError { start, end, kind: WalkErrorType::InvalidThis }))
        },
        Expression::Unary { expr, .. } => expr_fault(*expr, bound, muts, this_ok),
        Expression::Binary { left, right, .. } => first_fault(
            expr_fault(*left, bound, muts, this_ok),
            expr_fault(*right, bound, muts, this_ok),
        ),
        Expression::IndexAccess { item, index } => first_fault(
            expr_fault(*item, bound, muts, this_ok),
            expr_fault(*index, bound, muts, this_ok),
        ),
        Expression::PropertyAccess { item, .. } => expr_fault(*item, bound, muts, this_ok),
        Expression::ArrayCreation(es) => exprs_fault(es@, bound, muts, this_ok),
        Expression::FunctionCall { function, args } => first_fault(
            expr_fault(*function, bound, muts, this_ok),
            exprs_fault(args@, bound, muts, this_ok),
        ),
        Expression::Assignment { left, right, .. } => first_fault(
            target_fault(left, bound, muts, this_ok),
            expr_fault(*right, bound, muts, this_ok),
        ),
        Expression::Hash(h) => entries_fault(h@, bound, muts, this_ok),
        Expression::MutableHash(h) => entries_fault(h@, bound, muts, this_ok),
        Expression::Lambda(_) => None,
        _ => Some(None),
    }
}

/// `expr_fault` for an assignment target.
pub open spec fn target_fault(a: Assignable, bound: Set<usize>, muts: Set<usize>, this_ok: bool) -> Option<Option<WalkError>>
    decreases a,
{
    match a {
        Assignable::Identifier(i) => Some(assign_fault(i, bound, muts)),
        Assignable::IndexAccess { item, index } => first_fault(
            expr_fault(*item, bound, muts, this_ok),
            expr_fault(*index, bound, muts, this_ok),
        ),
        Assignable::PropertyAccess { item, .. } => expr_fault(*item, bound, muts, this_ok),
    }
}

/// `expr_fault` for a list of expressions, walked in order.
pub open spec fn exprs_fault(es: Seq<Expression>, bound: Set<usize>, muts: Set<usize>, this_ok: bool) -> Option<Option<WalkError>>
    decreases es,
{
    if es.len() == 0 {
        Some(None)
    } else {
        first_fault(exprs_fault(es.drop_last(), bound, muts, this_ok), expr_fault(es.last(), bound, muts, this_ok))
    }
}

/// `expr_fault` for the entries of a hash literal, walked in order.
pub open spec fn entries_fault(h: Seq<(usize, ObjectValue)>, bound: Set<usize>, muts: Set<usize>, this_ok: bool) -> Option<Option<WalkError>>
    decreases h,
{
    if h.len() == 0 {
        Some(None)
    } else {
        first_fault(entries_fault(h.drop_last(), bound, muts, this_ok), entry_fault(h.last().1, bound, muts, this_ok))
    }
}

/// `expr_fault` for the value of one entry of a hash literal: a property
/// read from a variable needs the variable, one written to it a variable
/// that may be assigned.
pub open spec fn entry_fault(v: ObjectValue, bound: Set<usize>, muts: Set<usize>, this_ok: bool) -> Option<Option<WalkError>>
    decreases v,
{
    match v {
        ObjectValue::Expression(e) => expr_fault(e, bound, muts, this_ok),
        ObjectValue::AutoProp(p) => first_fault(
            match p.get {
                Some(AutoPropValue::String(l)) => if bound.contains(l.data) {
                    Some(None)
                } else {
                    Some(Some(not_found(l)))
                },
                Some(AutoPropValue::Lambda(_)) => None,
                None => Some(None),
            },
            match p.set {
                Some(AutoPropValue::String(l)) => Some(assign_fault(l, bound, muts)),
                Some(AutoPropValue::Lambda(_)) => None,
                None => Some(None),
            },
        ),
    }
}

/// Once what is known of a prefix of a list is an error, or nothing, every
/// longer prefix gives the same.
proof fn lemma_exprs_fault_prefix(es: Seq<Expression>, j: int, k: int, bound: Set<usize>, muts: Set<usize>, this_ok: bool)
    requires
        0 <= j <= k <= es.len(),
        exprs_fault(es.take(j), bound, muts, this_ok) != Some(None::<WalkError>),
    ensures
        exprs_fault(es.take(k), bound, muts, this_ok) == exprs_fault(es.take(j), bound, muts, this_ok),
    decreases k - j,
{
    if j < k {
        lemma_exprs_fault_prefix(es, j, k - 1, bound, muts, this_ok);
        assert(es.take(k).drop_last() =~= es.take(k - 1));
    }
}

/// `lemma_exprs_fault_prefix` for the entries of a hash literal.
proof fn lemma_entries_fault_prefix(h: Seq<(usize, ObjectValue)>, j: int, k: int, bound: Set<usize>, muts: Set<usize>, this_ok: bool)
    requires
        0 <= j <= k <= h.len(),
        entries_fault(h.take(j), bound, muts, this_ok) != Some(None::<WalkError>),
    ensures
        entries_fault(h.take(k), bound, muts, this_ok) == entries_fault(h.take(j), bound, muts, this_ok),
    decreases k - j,
{
    if j < k {
        lemma_entries_fault_prefix(h, j, k - 1, bound, muts, this_ok);
        assert(h.take(k).drop_last() =~= h.take(k - 1));
    }
}

/// `expr_names_bound` for the value of one entry of a hash literal.
pub open spec fn entry_names_bound(v: ObjectValue, bound: Set<usize>, muts: Set<usize>) -> bool
    decreases v,
{
    match v {
        ObjectValue::Expression(e) => expr_names_bound(e, bound, muts),
        ObjectValue::AutoProp(p) => {
            &&& p.get matches Some(AutoPropValue::String(l)) ==> bound.contains(l.data)
            &&& p.set matches Some(AutoPropValue::String(l)) ==> bound.contains(l.data) && muts.contains(l.data)
        },
    }
}

/// The names visible, and those that may be assigned, after the
/// declarators `ds` of one declaration: each declared name becomes visible,
/// and may be assigned if the declaration is `decl`, not if it is `im`.
pub open spec fn after_declarators(ds: Seq<Declarator>, mutable: bool, bound: Set<usize>, muts: Set<usize>) -> (Set<usize>, Set<usize>)
    decreases ds.len(),
{
    if ds.len() == 0 {
        (bound, muts)
    } else {
        let (b, m) = after_declarators(ds.drop_last(), mutable, bound, muts);
        let name = ds.last().identifier.data;
        (b.insert(name), if mutable { m.insert(name) } else { m.remove(name) })
    }
}

/// Whether the value of each declarator uses only the names visible where
/// it stands: those before the declaration and the earlier declarators.
pub open spec fn declarators_bound(ds: Seq<Declarator>, mutable: bool, bound: Set<usize>, muts: Set<usize>) -> bool
    decreases ds.len(),
{
    if ds.len() == 0 {
        true
    } else {
        let (b, m) = after_declarators(ds.drop_last(), mutable, bound, muts);
        declarators_bound(ds.drop_last(), mutable, bound, muts) && expr_names_bound(ds.last().value, b, m)
    }
}

/// The names visible, and those that may be assigned, after a statement:
/// only a declaration changes them; names declared in a nested block stay
/// inside it.
pub open spec fn after_node(n: Node, bound: Set<usize>, muts: Set<usize>) -> (Set<usize>, Set<usize>) {
    match n {
        Node::Declaration(d) => after_declarators(d.declarations@, d.mutable, bound, muts),
        _ => (bound, muts),
    }
}

/// The names visible, and those that may be assigned, after a sequence of
/// statements.
pub open spec fn after_nodes(ns: Seq<Node>, bound: Set<usize>, muts: Set<usize>) -> (Set<usize>, Set<usize>)
    decreases ns.len(),
{
    if ns.len() == 0 {
        (bound, muts)
    } else {
        let (b, m) = after_nodes(ns.drop_last(), bound, muts);
        after_node(ns.last(), b, m)
    }
}

/// Whether every statement of a block uses only the names visible where it
/// stands and assigns only variables that may be assigned there.
pub open spec fn nodes_names_bound(ns: Seq<Node>, bound: Set<usize>, muts: Set<usize>) -> bool
    decreases ns,
{
    if ns.len() == 0 {
        true
    } else {
        let (b, m) = after_nodes(ns.drop_last(), bound, muts);
        nodes_names_bound(ns.drop_last(), bound, muts) && node_names_bound(ns.last(), b, m)
    }
}

/// `nodes_names_bound` for one statement: its expressions, and its nested
/// blocks, each starting from the names visible at the statement (for a
/// `for` loop, with the names its declaration adds).
pub open spec fn node_names_bound(n: Node, bound: Set<usize>, muts: Set<usize>) -> bool
    decreases n,
{
    match n {
        Node::Expression(e) => expr_names_bound(e, bound, muts),
        Node::Block(b) => nodes_names_bound(b@, bound, muts),
        Node::While(p) => expr_names_bound(p.condition, bound, muts) && nodes_names_bound(p.block@, bound, muts),
        Node::Declaration(d) => declarators_bound(d.declarations@, d.mutable, bound, muts),
        Node::ControlFlow(f) => match f.kind {
            BreakType::Return(e) => expr_names_bound(e, bound, muts),
            _ => true,
        },
        Node::LogicChain { if_block, elseifs, else_block } => {
            &&& expr_names_bound(if_block.condition, bound, muts)
            &&& nodes_names_bound(if_block.block@, bound, muts)
            &&& pairs_names_bound(elseifs@, bound, muts)
            &&& match else_block {
                Some(b) => nodes_names_bound(b@, bound, muts),
                None => true,
            }
        },
        Node::For { declaration, condition, increment, body } => {
            let (b, m) = match declaration {
                Some(d) => after_declarators(d.declarations@, d.mutable, bound, muts),
                None => (bound, muts),
            };
            &&& match declaration {
                Some(d) => declarators_bound(d.declarations@, d.mutable, bound, muts),
                None => true,
            }
            &&& match condition {
                Some(c) => expr_names_bound(c, b, m),
                None => true,
            }
            &&& match increment {
                Some(c) => expr_names_bound(c, b, m),
                None => true,
            }
            &&& nodes_names_bound(body@, b, m)
        },
    }
}

/// `nodes_names_bound` for the conditions and blocks of `else if` branches.
pub open spec fn pairs_names_bound(ps: Seq<ConditionBodyPair>, bound: Set<usize>, muts: Set<usize>) -> bool
    decreases ps,
{
    if ps.len() == 0 {
        true
    } else {
        &&& pairs_names_bound(ps.drop_last(), bound, muts)
        &&& expr_names_bound(ps.last().condition, bound, muts)
        &&& nodes_names_bound(ps.last().block@, bound, muts)
    }
}

/// Whether an expression holds no lambda, getter or setter, and `this`
/// only where `this_ok`: for such an expression the names it uses alone
/// decide whether the walk accepts it.
pub open spec fn plain_expr(e: Expression, this_ok: bool) -> bool
    decreases e,
{
    match e {
        Expression::Lambda(_) => false,
        Expression::This { .. } => this_ok,
        Expression::Unary { expr, .. } => plain_expr(*expr, this_ok),
        Expression::Binary { left, right, .. } => plain_expr(*left, this_ok) && plain_expr(*right, this_ok),
        Expression::IndexAccess { item, index } => plain_expr(*item, this_ok) && plain_expr(*index, this_ok),
        Expression::PropertyAccess { item, .. } => plain_expr(*item, this_ok),
        Expression::ArrayCreation(es) => plain_exprs(es@, this_ok),
        Expression::FunctionCall { function, args } => plain_expr(*function, this_ok) && plain_exprs(args@, this_ok),
        Expression::Assignment { left, right, .. } => plain_target(left, this_ok) && plain_expr(*right, this_ok),
        Expression::Hash(h) => plain_entries(h@, this_ok),
        Expression::MutableHash(h) => plain_entries(h@, this_ok),
        _ => true,
    }
}

/// `plain_expr` for an assignment target.
pub open spec fn plain_target(a: Assignable, this_ok: bool) -> bool
    decreases a,
{
    match a {
        Assignable::Identifier(_) => true,
        Assignable::IndexAccess { item, index } => plain_expr(*item, this_ok) && plain_expr(*index, this_ok),
        Assignable::PropertyAccess { item, .. } => plain_expr(*item, this_ok),
    }
}

/// `plain_expr` for every expression of a list.
pub open spec fn plain_exprs(es: Seq<Expression>, this_ok: bool) -> bool
    decreases es,
{
    if es.len() == 0 {
        true
    } else {
        plain_exprs(es.drop_last(), this_ok) && plain_expr(es.last(), this_ok)
    }
}

/// `plain_expr` for the entries of a hash literal: no getter or setter
/// body, only properties bound to variables.
pub open spec fn plain_entries(h: Seq<(usize, ObjectValue)>, this_ok: bool) -> bool
    decreases h,
{
    if h.len() == 0 {
        true
    } else {
        plain_entries(h.drop_last(), this_ok) && plain_entry(h.last().1, this_ok)
    }
}

/// `plain_expr` for the value of one entry of a hash literal.
pub open spec fn plain_entry(v: ObjectValue, this_ok: bool) -> bool
    decreases v,
{
    match v {
        ObjectValue::Expression(e) => plain_expr(e, this_ok),
        ObjectValue::AutoProp(p) => !(p.get matches Some(AutoPropValue::Lambda(_)))
            && !(p.set matches Some(AutoPropValue::Lambda(_))),
    }
}

/// What holds of a list of expressions holds of each of them.
proof fn lemma_exprs_each(es: Seq<Expression>, i: int, this_ok: bool, bound: Set<usize>, muts: Set<usize>)
    requires
        0 <= i < es.len(),
    ensures
        plain_exprs(es, this_ok) ==> plain_expr(es[i], this_ok),
        exprs_names_bound(es, bound, muts) ==> expr_names_bound(es[i], bound, muts),
    decreases es.len(),
{
    if i < es.len() - 1 {
        lemma_exprs_each(es.drop_last(), i, this_ok, bound, muts);
    }
}

/// What holds of the entries of a hash literal holds of each of them.
proof fn lemma_entries_each(h: Seq<(usize, ObjectValue)>, i: int, this_ok: bool, bound: Set<usize>, muts: Set<usize>)
    requires
        0 <= i < h.len(),
    ensures
        plain_entries(h, this_ok) ==> plain_entries(h.take(i + 1), this_ok),
        entries_names_bound(h, bound, muts) ==> entries_names_bound(h.take(i + 1), bound, muts),
    decreases h.len(),
{
    if i < h.len() - 1 {
        lemma_entries_each(h.drop_last(), i, this_ok, bound, muts);
        assert(h.drop_last().take(i + 1) =~= h.take(i + 1));
    } else {
        assert(h.take(i + 1) =~= h);
    }
}

/// Handing captures back from a nested scope changes neither which names
/// are visible nor which may be assigned.
pub proof fn lemma_migrated_same_names(parent: Map<usize, DefData>, child: Map<usize, DefData>, keys: Set<usize>)
    ensures
        crate::ast::analysis::scope::migrated(parent, child, keys).dom() == parent.dom(),
        mutable_names(crate::ast::analysis::scope::migrated(parent, child, keys)) == mutable_names(parent),
{
    let m = crate::ast::analysis::scope::migrated(parent, child, keys);
    assert(m.dom() =~= parent.dom());
    assert(mutable_names(m) =~= mutable_names(parent));
}

/// Binding a variable makes its name visible, and assignable exactly when
/// it is bound as mutable.
pub proof fn lemma_insert_names(m: Map<usize, DefData>, name: usize, d: DefData)
    ensures
        m.insert(name, d).dom() == m.dom().insert(name),
        mutable_names(m.insert(name, d)) == (if d.kind is Mutable {
            mutable_names(m).insert(name)
        } else {
            mutable_names(m).remove(name)
        }),
{
    assert(m.insert(name, d).dom() =~= m.dom().insert(name));
    if d.kind is Mutable {
        assert(mutable_names(m.insert(name, d)) =~= mutable_names(m).insert(name));
    } else {
        assert(mutable_names(m.insert(name, d)) =~= mutable_names(m).remove(name));
    }
}

/// More visible names, or more names that may be assigned, keep the names
/// of an expression bound.
pub proof fn lemma_expr_bound_mono(e: Expression, b1: Set<usize>, m1: Set<usize>, b2: Set<usize>, m2: Set<usize>)
    requires
        expr_names_bound(e, b1, m1),
        b1.subset_of(b2),
        m1.subset_of(m2),
    ensures
        expr_names_bound(e, b2, m2),
    decreases e,
{
    match e {
        Expression::Unary { expr, .. } => lemma_expr_bound_mono(*expr, b1, m1, b2, m2),
        Expression::Binary { left, right, .. } => {
            lemma_expr_bound_mono(*left, b1, m1, b2, m2);
            lemma_expr_bound_mono(*right, b1, m1, b2, m2);
        },
        Expression::IndexAccess { item, index } => {
            lemma_expr_bound_mono(*item, b1, m1, b2, m2);
            lemma_expr_bound_mono(*index, b1, m1, b2, m2);
        },
        Expression::PropertyAccess { item, .. } => lemma_expr_bound_mono(*item, b1, m1, b2, m2),
        Expression::ArrayCreation(es) => lemma_exprs_bound_mono(es@, b1, m1, b2, m2),
        Expression::FunctionCall { function, args } => {
            lemma_expr_bound_mono(*function, b1, m1, b2, m2);
            lemma_exprs_bound_mono(args@, b1, m1, b2, m2);
        },
        Expression::Assignment { left, right, .. } => {
            lemma_target_bound_mono(left, b1, m1, b2, m2);
            lemma_expr_bound_mono(*right, b1, m1, b2, m2);
        },
        Expression::Hash(h) => lemma_entries_bound_mono(h@, b1, m1, b2, m2),
        Expression::MutableHash(h) => lemma_entries_bound_mono(h@, b1, m1, b2, m2),
        _ => {},
    }
}

/// `lemma_expr_bound_mono` for an assignment target.
pub proof fn lemma_target_bound_mono(a: Assignable, b1: Set<usize>, m1: Set<usize>, b2: Set<usize>, m2: Set<usize>)
    requires
        target_names_bound(a, b1, m1),
        b1.subset_of(b2),
        m1.subset_of(m2),
    ensures
        target_names_bound(a, b2, m2),
    decreases a,
{
    match a {
        Assignable::Identifier(_) => {},
        Assignable::IndexAccess { item, index } => {
            lemma_expr_bound_mono(*item, b1, m1, b2, m2);
            lemma_expr_bound_mono(*index, b1, m1, b2, m2);
        },
        Assignable::PropertyAccess { item, .. } => lemma_expr_bound_mono(*item, b1, m1, b2, m2),
    }
}

/// `lemma_expr_bound_mono` for a list of expressions.
pub proof fn lemma_exprs_bound_mono(es: Seq<Expression>, b1: Set<usize>, m1: Set<usize>, b2: Set<usize>, m2: Set<usize>)
    requires
        exprs_names_bound(es, b1, m1),
        b1.subset_of(b2),
        m1.subset_of(m2),
    ensures
        exprs_names_bound(es, b2, m2),
    decreases es,
{
    if es.len() > 0 {
        lemma_exprs_bound_mono(es.drop_last(), b1, m1, b2, m2);
        lemma_expr_bound_mono(es.last(), b1, m1, b2, m2);
    }
}

/// `lemma_expr_bound_mono` for the entries of a hash literal.
pub proof fn lemma_entries_bound_mono(h: Seq<(usize, ObjectValue)>, b1: Set<usize>, m1: Set<usize>, b2: Set<usize>, m2: Set<usize>)
    requires
        entries_names_bound(h, b1, m1),
        b1.subset_of(b2),
        m1.subset_of(m2),
    ensures
        entries_names_bound(h, b2, m2),
    decreases h,
{
    if h.len() > 0 {
        lemma_entries_bound_mono(h.drop_last(), b1, m1, b2, m2);
        assert(entry_names_bound(h.last().1, b1, m1));
        match h.last().1 {
            ObjectValue::Expression(e) => lemma_expr_bound_mono(e, b1, m1, b2, m2),
            ObjectValue::AutoProp(_) => {},
        }
        assert(entry_names_bound(h.last().1, b2, m2));
    }
}

/// Declaring from more names leaves more names.
pub proof fn lemma_after_declarators_mono(ds: Seq<Declarator>, mutable: bool, b1: Set<usize>, m1: Set<usize>, b2: Set<usize>, m2: Set<usize>)
    requires
        b1.subset_of(b2),
        m1.subset_of(m2),
    ensures
        after_declarators(ds, mutable, b1, m1).0.subset_of(after_declarators(ds, mutable, b2, m2).0),
        after_declarators(ds, mutable, b1, m1).1.subset_of(after_declarators(ds, mutable, b2, m2).1),
    decreases ds.len(),
{
    if ds.len() > 0 {
        lemma_after_declarators_mono(ds.drop_last(), mutable, b1, m1, b2, m2);
    }
}

/// `lemma_expr_bound_mono` for the declarators of a declaration.
pub proof fn lemma_declarators_bound_mono(ds: Seq<Declarator>, mutable: bool, b1: Set<usize>, m1: Set<usize>, b2: Set<usize>, m2: Set<usize>)
    requires
        declarators_bound(ds, mutable, b1, m1),
        b1.subset_of(b2),
        m1.subset_of(m2),
    ensures
        declarators_bound(ds, mutable, b2, m2),
    decreases ds.len(),
{
    if ds.len() > 0 {
        lemma_declarators_bound_mono(ds.drop_last(), mutable, b1, m1, b2, m2);
        lemma_after_declarators_mono(ds.drop_last(), mutable, b1, m1, b2, m2);
        let (x1, y1) = after_declarators(ds.drop_last(), mutable, b1, m1);
        let (x2, y2) = after_declarators(ds.drop_last(), mutable, b2, m2);
        lemma_expr_bound_mono(ds.last().value, x1, y1, x2, y2);
    }
}

/// Running statements from more names leaves more names.
pub proof fn lemma_after_nodes_mono(ns: Seq<Node>, b1: Set<usize>, m1: Set<usize>, b2: Set<usize>, m2: Set<usize>)
    requires
        b1.subset_of(b2),
        m1.subset_of(m2),
    ensures
        after_nodes(ns, b1, m1).0.subset_of(after_nodes(ns, b2, m2).0),
        after_nodes(ns, b1, m1).1.subset_of(after_nodes(ns, b2, m2).1),
    decreases ns.len(),
{
    if ns.len() > 0 {
        lemma_after_nodes_mono(ns.drop_last(), b1, m1, b2, m2);
        let (x1, y1) = after_nodes(ns.drop_last(), b1, m1);
        let (x2, y2) = after_nodes(ns.drop_last(), b2, m2);
        match ns.last() {
            Node::Declaration(d) => lemma_after_declarators_mono(d.declarations@, d.mutable, x1, y1, x2, y2),
            _ => {},
        }
    }
}

/// `lemma_expr_bound_mono` for a block.
pub proof fn lemma_nodes_bound_mono(ns: Seq<Node>, b1: Set<usize>, m1: Set<usize>, b2: Set<usize>, m2: Set<usize>)
    requires
        nodes_names_bound(ns, b1, m1),
        b1.subset_of(b2),
        m1.subset_of(m2),
    ensures
        nodes_names_bound(ns, b2, m2),
    decreases ns,
{
    if ns.len() > 0 {
        lemma_nodes_bound_mono(ns.drop_last(), b1, m1, b2, m2);
        lemma_after_nodes_mono(ns.drop_last(), b1, m1, b2, m2);
        let (x1, y1) = after_nodes(ns.drop_last(), b1, m1);
        let (x2, y2) = after_nodes(ns.drop_last(), b2, m2);
        lemma_node_bound_mono(ns.last(), x1, y1, x2, y2);
    }
}

/// `lemma_expr_bound_mono` for one statement.
pub proof fn lemma_node_bound_mono(n: Node, b1: Set<usize>, m1: Set<usize>, b2: Set<usize>, m2: Set<usize>)
    requires
        node_names_bound(n, b1, m1),
        b1.subset_of(b2),
        m1.subset_of(m2),
    ensures
        node_names_bound(n, b2, m2),
    decreases n,
{
    match n {
        Node::Expression(e) => lemma_expr_bound_mono(e, b1, m1, b2, m2),
        Node::Block(b) => lemma_nodes_bound_mono(b@, b1, m1, b2, m2),
        Node::While(p) => {
            lemma_expr_bound_mono(p.condition, b1, m1, b2, m2);
            lemma_nodes_bound_mono(p.block@, b1, m1, b2, m2);
        },
        Node::Declaration(d) => lemma_declarators_bound_mono(d.declarations@, d.mutable, b1, m1, b2, m2),
        Node::ControlFlow(f) => match f.kind {
            BreakType::Return(e) => lemma_expr_bound_mono(e, b1, m1, b2, m2),
            _ => {},
        },
        Node::LogicChain { if_block, elseifs, else_block } => {
            lemma_expr_bound_mono(if_block.condition, b1, m1, b2, m2);
            lemma_nodes_bound_mono(if_block.block@, b1, m1, b2, m2);
            lemma_pairs_bound_mono(elseifs@, b1, m1, b2, m2);
            match else_block {
                Some(b) => lemma_nodes_bound_mono(b@, b1, m1, b2, m2),
                None => {},
            }
        },
        Node::For { declaration, condition, increment, body } => {
            let (x1, y1) = match declaration {
                Some(d) => after_declarators(d.declarations@, d.mutable, b1, m1),
                None => (b1, m1),
            };
            let (x2, y2) = match declaration {
                Some(d) => after_declarators(d.declarations@, d.mutable, b2, m2),
                None => (b2, m2),
            };
            match declaration {
                Some(d) => {
                    lemma_declarators_bound_mono(d.declarations@, d.mutable, b1, m1, b2, m2);
                    lemma_after_declarators_mono(d.declarations@, d.mutable, b1, m1, b2, m2);
                },
                None => {},
            }
            match condition {
                Some(c) => lemma_expr_bound_mono(c, x1, y1, x2, y2),
                None => {},
            }
            match increment {
                Some(c) => lemma_expr_bound_mono(c, x1, y1, x2, y2),
                None => {},
            }
            lemma_nodes_bound_mono(body@, x1, y1, x2, y2);
        },
    }
}

/// `lemma_expr_bound_mono` for `else if` branches.
pub proof fn lemma_pairs_bound_mono(ps: Seq<ConditionBodyPair>, b1: Set<usize>, m1: Set<usize>, b2: Set<usize>, m2: Set<usize>)
    requires
        pairs_names_bound(ps, b1, m1),
        b1.subset_of(b2),
        m1.subset_of(m2),
    ensures
        pairs_names_bound(ps, b2, m2),
    decreases ps,
{
    if ps.len() > 0 {
        lemma_pairs_bound_mono(ps.drop_last(), b1, m1, b2, m2);
        lemma_expr_bound_mono(ps.last().condition, b1, m1, b2, m2);
        lemma_nodes_bound_mono(ps.last().block@, b1, m1, b2, m2);
    }
}

/// Whether a statement is a `break` or `continue`.
pub open spec fn is_loop_jump(n: Node) -> bool {
    n matches Node::ControlFlow(f) && (f.kind is Break || f.kind is Continue)
}

/// Whether a statement is a `return`.
pub open spec fn is_return(n: Node) -> bool {
    n matches Node::ControlFlow(f) && f.kind is Return
}

/// Takes the entry out of slot `i`.
fn take_slot<T>(v: &mut Vec<Option<T>>, i: usize) -> (r: Option<T>)
    requires
        i < old(v)@.len(),
    ensures
        r == old(v)@[i as int],
        final(v)@ == old(v)@.update(i as int, None),
{
    v[i].take()
}

/// Puts an entry back into slot `i`.
fn put_slot<T>(v: &mut Vec<Option<T>>, i: usize, x: T)
    requires
        i < old(v)@.len(),
    ensures
        final(v)@ == old(v)@.update(i as int, Some(x)),
{
    v[i] = Some(x);
}

/// Walks the body of a lambda, getter or setter in its own scope.
pub fn walk_lambda_block(block: &mut LambdaBody, scope: &mut Scope, lams: &mut Lams, cap: &mut CaptureStack) -> (r: WalkResult)
    ensures
        final(lams).same_slots(old(lams)),
        final(lams).live() == old(lams).live(),
        final(cap).view_seq().len() == old(cap).view_seq().len(),
        final(scope).level == old(scope).level,
        final(scope).lam_pass == old(scope).lam_pass,
        r is Ok ==> body_names_bound(*old(block), old(scope).names().dom(), mutable_names(old(scope).names())),
        body_ok(*old(block), shape(old(scope).names()), old(scope).level, old(scope).loop_alloc is Some,
            old(scope).fnc_alloc is Some, old(scope).lam_pass is Some) ==> r is Ok,
        r is Ok && body_plain(*old(block)) ==> body_ok(*old(block), shape(old(scope).names()), old(scope).level,
            old(scope).loop_alloc is Some, old(scope).fnc_alloc is Some, old(scope).lam_pass is Some),
    decreases old(lams).live(), 3nat, *old(block), 0nat,
{
    proof { lemma_shape_names(old(scope).names(), 0, 0); }
    match block {
        LambdaBody::Block(b) => {
            let res = walk_ast(b, scope, lams, cap);
            scope.check_decls(b);
            res
        },
        LambdaBody::ImplicitReturn(e) => walk_expression(e, scope, lams, cap),
    }
}

/// Walks a lambda: its parameters are bound in a function scope, its body
/// is walked, and the outer variables it uses become its captures.
pub fn eval_lambda(lam: &mut Lambda, scope: &mut Scope, cap: &mut CaptureStack, lams: &mut Lams) -> (r: WalkResult)
    ensures
        final(lams).same_slots(old(lams)),
        final(lams).live() == old(lams).live(),
        final(cap).view_seq().len() == old(cap).view_seq().len(),
        final(scope).same_frame(old(scope)),
        marks_only(old(scope).names(), final(scope).names()),
        r is Ok ==> body_names_bound(old(lam).body,
            old(scope).names().dom() + param_names(old(lam).param_list).to_set(),
            mutable_names(old(scope).names()) + param_names(old(lam).param_list).to_set()),
        body_ok(old(lam).body, with_params(shape(old(scope).names()), param_names(old(lam).param_list), sat_inc(old(scope).level)),
            sat_inc(old(scope).level), false, true, true) ==> r is Ok,
        r is Ok && body_plain(old(lam).body) ==> body_ok(old(lam).body,
            with_params(shape(old(scope).names()), param_names(old(lam).param_list), sat_inc(old(scope).level)),
            sat_inc(old(scope).level), false, true, true),
    decreases old(lams).live(), 4nat, *old(lam), 0nat,
{
    let mut sub = scope.child(SubState::InFunc);
    sub.lam_pass = Some(LamPass::First);
    cap.add(sub.level);
    sub.add_params(&lam.param_list);
    proof {
        let ps = param_names(lam.param_list).to_set();
        assert(sub.names().dom() =~= scope.names().dom() + ps);
        assert(mutable_names(sub.names()) =~= mutable_names(scope.names()) + ps);
        assert(shape(sub.names()) =~= with_params(shape(scope.names()), param_names(lam.param_list), sub.level));
    }
    let res = walk_lambda_block(&mut lam.body, &mut sub, lams, cap);
    match res {
        Ok(()) => {
            sub.check_params(&mut lam.param_list);
            lam.captured = cap.pop();
            sub.migrate(scope);
            Ok(())
        },
        Err(e) => {
            let _ = cap.pop();
            Err(e)
        },
    }
}

/// Walks a getter like a lambda without parameters.
pub fn eval_getter(lam: &mut GetProp, scope: &mut Scope, cap: &mut CaptureStack, lams: &mut Lams) -> (r: WalkResult)
    ensures
        final(lams).same_slots(old(lams)),
        final(lams).live() == old(lams).live(),
        final(cap).view_seq().len() == old(cap).view_seq().len(),
        final(scope).same_frame(old(scope)),
        marks_only(old(scope).names(), final(scope).names()),
        r is Ok ==> body_names_bound(old(lam).block, old(scope).names().dom(), mutable_names(old(scope).names())),
        body_ok(old(lam).block, shape(old(scope).names()), sat_inc(old(scope).level), false, true, true) ==> r is Ok,
        r is Ok && body_plain(old(lam).block) ==> body_ok(old(lam).block, shape(old(scope).names()),
            sat_inc(old(scope).level), false, true, true),
    decreases old(lams).live(), 4nat, *old(lam), 0nat,
{
    let mut sub = scope.child(SubState::InFunc);
    sub.lam_pass = Some(LamPass::First);
    cap.add(sub.level);
    let res = walk_lambda_block(&mut lam.block, &mut sub, lams, cap);
    match res {
        Ok(()) => {
            lam.capture = cap.pop();
            sub.migrate(scope);
            Ok(())
        },
        Err(e) => {
            let _ = cap.pop();
            Err(e)
        },
    }
}

/// Walks a setter like a lambda whose one parameter is the assigned value.
pub fn eval_setter(lam: &mut SetProp, scope: &mut Scope, cap: &mut CaptureStack, lams: &mut Lams) -> (r: WalkResult)
    ensures
        final(lams).same_slots(old(lams)),
        final(lams).live() == old(lams).live(),
        final(cap).view_seq().len() == old(cap).view_seq().len(),
        final(scope).same_frame(old(scope)),
        marks_only(old(scope).names(), final(scope).names()),
        r is Ok ==> body_names_bound(old(lam).block, old(scope).names().dom().insert(old(lam).param),
            mutable_names(old(scope).names()).insert(old(lam).param)),
        body_ok(old(lam).block, with_params(shape(old(scope).names()), seq![old(lam).param], sat_inc(old(scope).level)),
            sat_inc(old(scope).level), false, true, true) ==> r is Ok,
        r is Ok && body_plain(old(lam).block) ==> body_ok(old(lam).block,
            with_params(shape(old(scope).names()), seq![old(lam).param], sat_inc(old(scope).level)),
            sat_inc(old(scope).level), false, true, true),
    decreases old(lams).live(), 4nat, *old(lam), 0nat,
{
    let mut sub = scope.child(SubState::InFunc);
    sub.lam_pass = Some(LamPass::First);
    cap.add(sub.level);
    let ghost nb = sub.names();
    let _ = sub.insert_mut(lam.param);
    proof {
        let d = DefData { kind: DefType::Mutable { captured: false }, level: sub.level };
        lemma_insert_names(nb, lam.param, d);
        lemma_insert_shape(nb, lam.param, d);
        assert forall|k: usize| seq![lam.param].contains(k) == (k == lam.param) by {
            if k == lam.param {
                assert(seq![lam.param][0] == k);
            }
        }
        assert(shape(sub.names()) =~= with_params(shape(scope.names()), seq![lam.param], sub.level));
    }
    let res = walk_lambda_block(&mut lam.block, &mut sub, lams, cap);
    match res {
        Ok(()) => {
            lam.param_captured = sub.take_captured(lam.param);
            lam.capture = cap.pop();
            sub.migrate(scope);
            Ok(())
        },
        Err(e) => {
            let _ = cap.pop();
            Err(e)
        },
    }
}

/// Walks the value of one entry of a hash literal: an expression, or the
/// two sides of an auto-property.  A side bound to a variable needs that
/// variable (and, to assign it, a variable that may be assigned); it is
/// then captured.
pub fn walk_entry(value: &mut ObjectValue, scope: &mut Scope, lams: &mut Lams, cap: &mut CaptureStack) -> (r: WalkResult)
    ensures
        final(lams).same_slots(old(lams)),
        final(lams).live() == old(lams).live(),
        final(cap).view_seq().len() == old(cap).view_seq().len(),
        final(scope).same_frame(old(scope)),
        marks_only(old(scope).names(), final(scope).names()),
        r is Ok ==> entry_names_bound(*old(value), old(scope).names().dom(), mutable_names(old(scope).names())),
        plain_entry(*old(value), old(scope).lam_pass is Some)
            && entry_names_bound(*old(value), old(scope).names().dom(), mutable_names(old(scope).names())) ==> r is Ok,
        r is Ok && plain_entry(*old(value), true) ==> plain_entry(*old(value), old(scope).lam_pass is Some),
        entry_fault(*old(value), old(scope).names().dom(), mutable_names(old(scope).names()), old(scope).lam_pass is Some) matches Some(f) ==> r == fault_result(f),
    decreases old(lams).live(), 0nat, *old(value), 1nat,
{
    let ghost n0 = scope.names();
    match value {
        ObjectValue::Expression(e) => walk_expression(e, scope, lams, cap),
        ObjectValue::AutoProp(auto) => {
            let r1 = match &auto.get {
                Some(AutoPropValue::Lambda(ind)) => {
                    let ind = *ind;
                    if ind >= lams.getters.len() {
                        Ok(())
                    } else {
                        let ghost l0 = *lams;
                        match take_slot(&mut lams.getters, ind) {
                            Some(mut getter) => {
                                proof {
                                    lemma_count_take(l0.getters@, ind as int);
                                }
                                let res = eval_getter(&mut getter, scope, cap, lams);
                                put_slot(&mut lams.getters, ind, getter);
                                proof {
                                    lemma_same_slots_live(lams, &l0);
                                }
                                res
                            },
                            None => {
                                proof {
                                    assert(lams.getters@ =~= l0.getters@);
                                }
                                Ok(())
                            },
                        }
                    }
                },
                Some(AutoPropValue::String(ident)) => {
                    if !scope.prop_check(ident.data) {
                        Err(WalkError {
                            start: ident.start.clone(),
                            end: ident.end.clone(),
                            kind: WalkErrorType::IdentifierNotFound(ident.data),
                        })
                    } else {
                        Ok(())
                    }
                },
                None => Ok(()),
            };
            let ghost nm = scope.names();
            proof {
                if r1 is Ok {
                    lemma_marks_same_names(n0, nm);
                }
            }
            match r1 {
                Ok(()) => match &auto.set {
                    Some(AutoPropValue::Lambda(ind)) => {
                    let ind = *ind;
                    if ind >= lams.setters.len() {
                        Ok(())
                    } else {
                        let ghost l0 = *lams;
                        match take_slot(&mut lams.setters, ind) {
                            Some(mut setter) => {
                                proof {
                                    lemma_count_take(l0.setters@, ind as int);
                                }
                                let res = eval_setter(&mut setter, scope, cap, lams);
                                put_slot(&mut lams.setters, ind, setter);
                                proof {
                                    lemma_same_slots_live(lams, &l0);
                                }
                                res
                            },
                            None => {
                                proof {
                                    assert(lams.setters@ =~= l0.setters@);
                                }
                                Ok(())
                            },
                        }
                    }
                },
                    Some(AutoPropValue::String(ident)) => {
                        if !scope.prop_check(ident.data) {
                            Err(WalkError {
                                start: ident.start.clone(),
                                end: ident.end.clone(),
                                kind: WalkErrorType::IdentifierNotFound(ident.data),
                            })
                        } else if !scope.prop_check_mut(ident.data) {
                            Err(WalkError {
                                start: ident.start.clone(),
                                end: ident.end.clone(),
                                kind: WalkErrorType::ImmutableModification(ident.data),
                            })
                        } else {
                            Ok(())
                        }
                    },
                    None => Ok(()),
                },
                Err(e) => Err(e),
            }
        },
    }
}

/// Walks the entries of a hash literal in order.
pub fn walk_hash(hash: &mut Vec<(usize, ObjectValue)>, scope: &mut Scope, lams: &mut Lams, cap: &mut CaptureStack) -> (r: WalkResult)
    ensures
        final(lams).same_slots(old(lams)),
        final(lams).live() == old(lams).live(),
        final(cap).view_seq().len() == old(cap).view_seq().len(),
        final(scope).same_frame(old(scope)),
        marks_only(old(scope).names(), final(scope).names()),
        r is Ok ==> entries_names_bound(old(hash)@, old(scope).names().dom(), mutable_names(old(scope).names())),
        plain_entries(old(hash)@, old(scope).lam_pass is Some)
            && entries_names_bound(old(hash)@, old(scope).names().dom(), mutable_names(old(scope).names())) ==> r is Ok,
        r is Ok && plain_entries(old(hash)@, true) ==> plain_entries(old(hash)@, old(scope).lam_pass is Some),
        entries_fault(old(hash)@, old(scope).names().dom(), mutable_names(old(scope).names()), old(scope).lam_pass is Some) matches Some(f) ==> r == fault_result(f),
    decreases old(lams).live(), 0nat, *old(hash), 1nat,
{
    let ghost h0 = *hash;
    let ghost n0 = scope.names();
    let mut i: usize = 0;
    proof {
        assert(h0@.take(0) =~= Seq::<(usize, ObjectValue)>::empty());
    }
    while i < hash.len()
        invariant
            h0 == *old(hash),
            n0 == old(scope).names(),
            entries_names_bound(h0@.take(i as int), n0.dom(), mutable_names(n0)),
            plain_entries(h0@, true) ==> plain_entries(h0@.take(i as int), old(scope).lam_pass is Some),
            !(entries_fault(h0@.take(i as int), n0.dom(), mutable_names(n0), old(scope).lam_pass is Some) matches Some(Some(_))),
            hash@.len() == h0@.len(),
            i <= hash@.len(),
            forall|j: int| i <= j < hash@.len() ==> #[trigger] hash@[j] == h0@[j],
            lams.same_slots(old(lams)),
            lams.live() == old(lams).live(),
            cap.view_seq().len() == old(cap).view_seq().len(),
            scope.same_frame(old(scope)),
            marks_only(old(scope).names(), scope.names()),
        decreases hash@.len() - i,
    {
        proof {
            assert(decreases_to!(h0 => h0@));
            assert(decreases_to!(h0@ => h0@[i as int]));
            assert(decreases_to!(h0 => h0@[i as int]));
            lemma_marks_same_names(n0, scope.names());
        }
        proof {
            lemma_entries_each(h0@, i as int, old(scope).lam_pass is Some, n0.dom(), mutable_names(n0));
            lemma_entries_each(h0@, i as int, true, n0.dom(), mutable_names(n0));
            assert(h0@.take(i + 1).drop_last() =~= h0@.take(i as int));
            assert(h0@.take(i + 1).last() == h0@[i as int]);
            assert(decreases_to!(h0@[i as int] => h0@[i as int].1));
        }
        let r = walk_entry(&mut hash[i].1, scope, lams, cap);
        match r {
            Ok(()) => {},
            Err(e) => {
                proof {
                    if true {
                        assert(h0@.take(i + 1).drop_last() =~= h0@.take(i as int));
                        assert(h0@.take(i + 1).last() == h0@[i as int]);
                        lemma_entries_fault_prefix(h0@, i + 1, h0@.len() as int, n0.dom(), mutable_names(n0), old(scope).lam_pass is Some);
                        assert(h0@.take(h0@.len() as int) =~= h0@);
                    }
                }
                return Err(e);
            },
        }
        proof {
            assert forall|j: int| i < j < hash@.len() implies #[trigger] hash@[j] == h0@[j] by {}
            assert(h0@.take(i + 1).drop_last() =~= h0@.take(i as int));
            assert(h0@.take(i + 1).last() == h0@[i as int]);
        }
        i = i + 1;
    }
    proof {
        assert(h0@.take(i as int) =~= h0@);
    }
    Ok(())
}

/// Walks a list of expressions in order.
pub fn walk_expressions(exprs: &mut Vec<Expression>, scope: &mut Scope, lams: &mut Lams, cap: &mut CaptureStack) -> (r: WalkResult)
    ensures
        final(lams).same_slots(old(lams)),
        final(lams).live() == old(lams).live(),
        final(cap).view_seq().len() == old(cap).view_seq().len(),
        final(scope).same_frame(old(scope)),
        marks_only(old(scope).names(), final(scope).names()),
        r is Ok ==> exprs_names_bound(old(exprs)@, old(scope).names().dom(), mutable_names(old(scope).names())),
        plain_exprs(old(exprs)@, old(scope).lam_pass is Some)
            && exprs_names_bound(old(exprs)@, old(scope).names().dom(), mutable_names(old(scope).names())) ==> r is Ok,
        r is Ok && plain_exprs(old(exprs)@, true) ==> plain_exprs(old(exprs)@, old(scope).lam_pass is Some),
        exprs_fault(old(exprs)@, old(scope).names().dom(), mutable_names(old(scope).names()), old(scope).lam_pass is Some) matches Some(f) ==> r == fault_result(f),
    decreases old(lams).live(), 0nat, *old(exprs), 1nat,
{
    let ghost e0 = *exprs;
    let ghost n0 = scope.names();
    let mut i: usize = 0;
    proof {
        assert(e0@.take(0) =~= Seq::<Expression>::empty());
    }
    while i < exprs.len()
        invariant
            e0 == *old(exprs),
            n0 == old(scope).names(),
            exprs@.len() == e0@.len(),
            i <= exprs@.len(),
            forall|j: int| i <= j < exprs@.len() ==> #[trigger] exprs@[j] == e0@[j],
            lams.same_slots(old(lams)),
            lams.live() == old(lams).live(),
            cap.view_seq().len() == old(cap).view_seq().len(),
            scope.same_frame(old(scope)),
            marks_only(old(scope).names(), scope.names()),
            exprs_names_bound(e0@.take(i as int), n0.dom(), mutable_names(n0)),
            plain_exprs(e0@, true) ==> plain_exprs(e0@.take(i as int), old(scope).lam_pass is Some),
            !(exprs_fault(e0@.take(i as int), n0.dom(), mutable_names(n0), old(scope).lam_pass is Some) matches Some(Some(_))),
        decreases exprs@.len() - i,
    {
        proof {
            assert(decreases_to!(e0 => e0@));
            assert(decreases_to!(e0@ => e0@[i as int]));
            assert(decreases_to!(e0 => e0@[i as int]));
            lemma_marks_same_names(n0, scope.names());
        }
        proof {
            lemma_exprs_each(e0@, i as int, old(scope).lam_pass is Some, n0.dom(), mutable_names(n0));
            lemma_exprs_each(e0@, i as int, true, n0.dom(), mutable_names(n0));
        }
        match walk_expression(&mut exprs[i], scope, lams, cap) {
            Ok(()) => {},
            Err(e) => {
                proof {
                    if true {
                        assert(e0@.take(i + 1).drop_last() =~= e0@.take(i as int));
                        assert(e0@.take(i + 1).last() == e0@[i as int]);
                        lemma_exprs_fault_prefix(e0@, i + 1, e0@.len() as int, n0.dom(), mutable_names(n0), old(scope).lam_pass is Some);
                        assert(e0@.take(e0@.len() as int) =~= e0@);
                    }
                }
                return Err(e);
            },
        }
        proof {
            assert forall|j: int| i < j < exprs@.len() implies #[trigger] exprs@[j] == e0@[j] by {}
            assert(e0@.take(i + 1).drop_last() =~= e0@.take(i as int));
            assert(e0@.take(i + 1).last() == e0@[i as int]);
        }
        i = i + 1;
    }
    proof {
        assert(e0@.take(i as int) =~= e0@);
    }
    Ok(())
}

/// Checks that every name an expression uses is visible, that every
/// assigned name may be assigned, and that `this` stands inside a lambda;
/// lambdas, getters and setters met on the way are walked too.
pub fn walk_expression(expression: &mut Expression, scope: &mut Scope, lams: &mut Lams, cap: &mut CaptureStack) -> (r: WalkResult)
    ensures
        final(lams).same_slots(old(lams)),
        final(lams).live() == old(lams).live(),
        final(cap).view_seq().len() == old(cap).view_seq().len(),
        final(scope).same_frame(old(scope)),
        marks_only(old(scope).names(), final(scope).names()),
        (*old(expression)) matches Expression::Identifier(i) ==> (r is Ok <==> old(scope).names().contains_key(i.data)),
        (*old(expression)) matches Expression::Identifier(i) ==> (r matches Err(e) ==> e == not_found(i)),
        (*old(expression)) matches Expression::Assignment { left: Assignable::Identifier(i), .. } ==> (
            assign_fault(i, old(scope).names().dom(), mutable_names(old(scope).names())) matches Some(f) ==> r == Err::<(), WalkError>(f)),
        (*old(expression)) is This ==> (r is Err <==> old(scope).lam_pass is None),
        (*old(expression)) is This ==> (r matches Err(e) ==> e.kind == WalkErrorType::InvalidThis),
        r is Ok ==> expr_names_bound(*old(expression), old(scope).names().dom(), mutable_names(old(scope).names())),
        plain_expr(*old(expression), old(scope).lam_pass is Some)
            && expr_names_bound(*old(expression), old(scope).names().dom(), mutable_names(old(scope).names())) ==> r is Ok,
        r is Ok && plain_expr(*old(expression), true) ==> plain_expr(*old(expression), old(scope).lam_pass is Some),
        expr_fault(*old(expression), old(scope).names().dom(), mutable_names(old(scope).names()), old(scope).lam_pass is Some) matches Some(f) ==> r == fault_result(f),
        (*old(expression)) matches Expression::Lambda(ind) ==> (lambda_accepted(old(lams).lambdas@, ind, shape(old(scope).names()),
            old(scope).level) ==> r is Ok),
    decreases old(lams).live(), 0nat, *old(expression), 0nat,
{
    let ghost n0 = scope.names();
    match expression {
        Expression::Unary { expr, .. } => walk_expression(expr, scope, lams, cap),
        Expression::Binary { left, right, .. } => {
            match walk_expression(left, scope, lams, cap) {
                Ok(()) => {},
                Err(e) => return Err(e),
            }
            proof { lemma_marks_same_names(n0, scope.names()); }
            walk_expression(right, scope, lams, cap)
        },
        Expression::IndexAccess { item, index } => {
            match walk_expression(item, scope, lams, cap) {
                Ok(()) => {},
                Err(e) => return Err(e),
            }
            proof { lemma_marks_same_names(n0, scope.names()); }
            walk_expression(index, scope, lams, cap)
        },
        Expression::ArrayCreation(exprs) => walk_expressions(exprs, scope, lams, cap),
        Expression::FunctionCall { function, args } => {
            match walk_expression(function, scope, lams, cap) {
                Ok(()) => {},
                Err(e) => return Err(e),
            }
            proof { lemma_marks_same_names(n0, scope.names()); }
            walk_expressions(args, scope, lams, cap)
        },
        Expression::PropertyAccess { item, .. } => walk_expression(item, scope, lams, cap),
        Expression::Assignment { left, right, .. } => {
            proof {
                reveal_with_fuel(expr_names_bound, 2);
                reveal_with_fuel(plain_expr, 2);
            }
            let ghost l0 = *left;
            let ghost tk = old(scope).lam_pass is Some;
            let r = match left {
                Assignable::Identifier(i) => {
                    let s = i.data;
                    proof {
                        lemma_mark_marks(scope.names(), s);
                    }
                    if !scope.has(s, cap) {
                        Err(WalkError {
                            kind: WalkErrorType::IdentifierNotFound(s),
                            start: i.start.clone(),
                            end: i.end.clone(),
                        })
                    } else {
                        proof {
                            lemma_marks_same_names(n0, scope.names());
                            lemma_mark_marks(scope.names(), s);
                            lemma_mark_marks(old(scope).names(), s);
                        }
                        if !scope.has_editable(s, cap) {
                            Err(WalkError {
                                kind: WalkErrorType::ImmutableModification(s),
                                start: i.start.clone(),
                                end: i.end.clone(),
                            })
                        } else {
                            Ok(())
                        }
                    }
                },
                Assignable::IndexAccess { item, index } => {
                    match walk_expression(item, scope, lams, cap) {
                        Ok(()) => {
                            proof { lemma_marks_same_names(n0, scope.names()); }
                            walk_expression(index, scope, lams, cap)
                        },
                        Err(e) => Err(e),
                    }
                },
                Assignable::PropertyAccess { item, .. } => walk_expression(item, scope, lams, cap),
            };
            proof {
                if let Some(f) = target_fault(l0, n0.dom(), mutable_names(n0), tk) {
                    assert(r == fault_result(f));
                }
            }
            match r {
                Ok(()) => {
                    proof {
                        lemma_marks_same_names(n0, scope.names());
                        reveal_with_fuel(expr_names_bound, 2);
                    }
                    walk_expression(right, scope, lams, cap)
                },
                Err(e) => Err(e),
            }
        },
        Expression::Hash(hash) => walk_hash(hash, scope, lams, cap),
        Expression::MutableHash(hash) => walk_hash(hash, scope, lams, cap),
        Expression::Lambda(ind) => {
                        let ind = *ind;
                        if ind >= lams.lambdas.len() {
                            Ok(())
                        } else {
                            let ghost l0 = *lams;
                            match take_slot(&mut lams.lambdas, ind) {
                                Some(mut lambda) => {
                                    proof {
                                        lemma_count_take(l0.lambdas@, ind as int);
                                    }
                                    let res = eval_lambda(&mut lambda, scope, cap, lams);
                                    put_slot(&mut lams.lambdas, ind, lambda);
                                    proof {
                                        lemma_same_slots_live(lams, &l0);
                                    }
                                    res
                                },
                                None => {
                                    proof {
                                        assert(lams.lambdas@ =~= l0.lambdas@);
                                    }
                                    Ok(())
                                },
                            }
                        }
                    },
        Expression::Identifier(identifier) => {
            if !scope.has(identifier.data, cap) {
                Err(WalkError {
                    start: identifier.start.clone(),
                    end: identifier.end.clone(),
                    kind: WalkErrorType::IdentifierNotFound(identifier.data),
                })
            } else {
                Ok(())
            }
        },
        Expression::This { start, end } => {
            if scope.lam_pass.is_none() {
                Err(WalkError { kind: WalkErrorType::InvalidThis, start: start.clone(), end: end.clone() })
            } else {
                Ok(())
            }
        },
        _ => Ok(()),
    }
}

/// Walks the declarators of a declaration in order: each value first, then
/// the name is bound in the current scope, which fails on a second
/// definition in the same scope.
pub fn walk_decl(decl: &mut Declaration, scope: &mut Scope, lams: &mut Lams, cap: &mut CaptureStack) -> (r: WalkResult)
    ensures
        final(lams).same_slots(old(lams)),
        final(lams).live() == old(lams).live(),
        final(cap).view_seq().len() == old(cap).view_seq().len(),
        final(scope).level == old(scope).level,
        final(scope).lam_pass == old(scope).lam_pass,
        final(scope).loop_alloc is Some == old(scope).loop_alloc is Some,
        final(scope).fnc_alloc is Some == old(scope).fnc_alloc is Some,
        forall|k: usize| old(scope).names().contains_key(k) ==> #[trigger] final(scope).names().contains_key(k),
        final(decl).declarations@.len() == old(decl).declarations@.len(),
        final(decl).mutable == old(decl).mutable,
        r is Ok ==> forall|j: int| 0 <= j < old(decl).declarations@.len() ==> {
            let name = #[trigger] old(decl).declarations@[j].identifier.data;
            &&& final(scope).names().contains_key(name)
            &&& final(scope).names()[name].level == old(scope).level
            &&& final(scope).names()[name].spec_is_mut() == old(decl).mutable
        },
        r is Ok ==> declarators_bound(old(decl).declarations@, old(decl).mutable,
            old(scope).names().dom(), mutable_names(old(scope).names())),
        r is Ok ==> (final(scope).names().dom(), mutable_names(final(scope).names())) == after_declarators(
            old(decl).declarations@, old(decl).mutable, old(scope).names().dom(), mutable_names(old(scope).names())),
        decls_ok(old(decl).declarations@, old(decl).mutable, shape(old(scope).names()), old(scope).level,
            old(scope).lam_pass is Some) ==> r is Ok,
        r is Ok ==> shape(final(scope).names()) == decls_shape(old(decl).declarations@, old(decl).mutable,
            shape(old(scope).names()), old(scope).level),
        r is Ok && decls_plain(old(decl).declarations@) ==> decls_ok(old(decl).declarations@, old(decl).mutable,
            shape(old(scope).names()), old(scope).level, old(scope).lam_pass is Some),
        decls_fault(old(decl).declarations@, old(decl).mutable,
            shape(old(scope).names()), old(scope).level, old(scope).lam_pass is Some) matches Some(f) ==> r == fault_result(f),
        r is Ok ==> decls_free(old(decl).declarations@, old(decl).mutable, shape(old(scope).names()), old(scope).level),
        r is Ok ==> final(scope).loop_alloc == bumped(old(scope).loop_alloc, old(decl).declarations@.len())
            && final(scope).fnc_alloc == bumped(old(scope).fnc_alloc, old(decl).declarations@.len()),
    decreases old(lams).live(), 1nat, *old(decl), 0nat,
{
    let ghost d0 = *decl;
    let ghost b0 = scope.names().dom();
    let ghost m0 = mutable_names(scope.names());
    let mut i: usize = 0;
    proof {
        assert(d0.declarations@.take(0) =~= Seq::<Declarator>::empty());
    }
    while i < decl.declarations.len()
        invariant
            d0 == *old(decl),
            b0 == old(scope).names().dom(),
            m0 == mutable_names(old(scope).names()),
            declarators_bound(d0.declarations@.take(i as int), d0.mutable, b0, m0),
            (scope.names().dom(), mutable_names(scope.names())) == after_declarators(d0.declarations@.take(i as int), d0.mutable, b0, m0),
            shape(scope.names()) == decls_shape(d0.declarations@.take(i as int), d0.mutable, shape(old(scope).names()), old(scope).level),
            decls_plain(d0.declarations@) ==> decls_ok(d0.declarations@.take(i as int), d0.mutable, shape(old(scope).names()),
                old(scope).level, old(scope).lam_pass is Some),
            !(decls_fault(d0.declarations@.take(i as int), d0.mutable, shape(old(scope).names()),
                old(scope).level, old(scope).lam_pass is Some) matches Some(Some(_))),
            scope.loop_alloc == bumped(old(scope).loop_alloc, i as nat),
            decls_free(d0.declarations@.take(i as int), d0.mutable, shape(old(scope).names()), old(scope).level),
            scope.fnc_alloc == bumped(old(scope).fnc_alloc, i as nat),
            decl.mutable == d0.mutable,
            decl.declarations@.len() == d0.declarations@.len(),
            i <= decl.declarations@.len(),
            forall|j: int| i <= j < decl.declarations@.len() ==> #[trigger] decl.declarations@[j] == d0.declarations@[j],
            forall|j: int| 0 <= j < decl.declarations@.len() ==>
                #[trigger] decl.declarations@[j].identifier == d0.declarations@[j].identifier,
            lams.same_slots(old(lams)),
            lams.live() == old(lams).live(),
            cap.view_seq().len() == old(cap).view_seq().len(),
            scope.level == old(scope).level,
            scope.lam_pass == old(scope).lam_pass,
            scope.loop_alloc is Some == old(scope).loop_alloc is Some,
            scope.fnc_alloc is Some == old(scope).fnc_alloc is Some,
            forall|k: usize| old(scope).names().contains_key(k) ==> #[trigger] scope.names().contains_key(k),
            forall|j: int| 0 <= j < i ==> {
                let name = #[trigger] d0.declarations@[j].identifier.data;
                &&& scope.names().contains_key(name)
                &&& scope.names()[name].level == old(scope).level
                &&& scope.names()[name].spec_is_mut() == d0.mutable
            },
        decreases decl.declarations@.len() - i,
    {
        let ghost before = decl.declarations@;
        let ghost nb = scope.names();
        proof {
            let sh0 = shape(old(scope).names());
            assert(d0.declarations@.take(i + 1).drop_last() =~= d0.declarations@.take(i as int));
            assert(d0.declarations@.take(i + 1).last() == d0.declarations@[i as int]);
            if decls_ok(d0.declarations@, d0.mutable, sh0, old(scope).level, old(scope).lam_pass is Some) {
                lemma_decls_ok_prefix(d0.declarations@, d0.mutable, sh0, old(scope).level, old(scope).lam_pass is Some, i + 1);
            }
            if decls_plain(d0.declarations@) {
                lemma_decls_plain_prefix(d0.declarations@, i + 1);
            }
            lemma_shape_names(nb, d0.declarations@[i as int].identifier.data, old(scope).level);
        }
        proof {
            if decls_plain(d0.declarations@) {
                lemma_decls_plain_prefix(d0.declarations@, i + 1);
            }
        }
        match walk_expression(&mut decl.declarations[i].value, scope, lams, cap) {
            Ok(()) => {},
            Err(e) => {
                proof {
                    if true {
                        lemma_decls_fault_prefix(d0.declarations@, d0.mutable, shape(old(scope).names()), old(scope).level,
                            old(scope).lam_pass is Some, i + 1, d0.declarations@.len() as int);
                        assert(d0.declarations@.take(d0.declarations@.len() as int) =~= d0.declarations@);
                    }
                }
                return Err(e);
            },
        }
        proof {
            lemma_marks_same_names(nb, scope.names());
            lemma_marks_same_shape(nb, scope.names());
            lemma_shape_names(scope.names(), d0.declarations@[i as int].identifier.data, old(scope).level);
        }
        let ghost na = scope.names();
        let name = decl.declarations[i].identifier.data;
        assert(name == d0.declarations@[i as int].identifier.data);
        if !scope.insert_var(name, decl.mutable) {
            proof {
                if true {
                    lemma_decls_fault_prefix(d0.declarations@, d0.mutable, shape(old(scope).names()), old(scope).level,
                        old(scope).lam_pass is Some, i + 1, d0.declarations@.len() as int);
                    assert(d0.declarations@.take(d0.declarations@.len() as int) =~= d0.declarations@);
                }
            }
            return Err(WalkError {
                start: decl.declarations[i].identifier.start.clone(),
                end: decl.declarations[i].identifier.end.clone(),
                kind: WalkErrorType::InvalidRedefinition(name),
            });
        }
        proof {
            assert forall|j: int| 0 <= j < decl.declarations@.len() && j != i implies #[trigger] decl.declarations@[j] == before[j] by {}
            let d = if d0.mutable {
                DefData { kind: DefType::Mutable { captured: false }, level: old(scope).level }
            } else {
                DefData { kind: DefType::Constant, level: old(scope).level }
            };
            lemma_insert_names(na, name, d);
            lemma_insert_shape(na, name, d);
            assert(d0.declarations@.take(i + 1).drop_last() =~= d0.declarations@.take(i as int));
            assert(d0.declarations@.take(i + 1).last() == d0.declarations@[i as int]);
        }
        i = i + 1;
    }
    proof {
        assert(d0.declarations@.take(i as int) =~= d0.declarations@);
    }
    Ok(())
}

/// Walks a block in a nested scope of the kind `state` names; the block's
/// variables are released afterwards and its captures handed back.
pub fn walk_sub_block(block: &mut Vec<Node>, state: SubState, scope: &mut Scope, lams: &mut Lams, cap: &mut CaptureStack) -> (r: WalkResult)
    ensures
        final(lams).same_slots(old(lams)),
        final(lams).live() == old(lams).live(),
        final(cap).view_seq().len() == old(cap).view_seq().len(),
        final(scope).same_frame(old(scope)),
        marks_only(old(scope).names(), final(scope).names()),
        r is Ok ==> nodes_names_bound(old(block)@, old(scope).names().dom(), mutable_names(old(scope).names())),
        nodes_ok(old(block)@, shape(old(scope).names()), sat_inc(old(scope).level),
            if state == SubState::WithLoop { true } else if state == SubState::InFunc { false } else { old(scope).loop_alloc is Some },
            if state == SubState::InFunc { true } else { old(scope).fnc_alloc is Some },
            old(scope).lam_pass is Some) ==> r is Ok,
        r is Ok && nodes_plain(old(block)@) ==> nodes_ok(old(block)@, shape(old(scope).names()), sat_inc(old(scope).level),
            if state == SubState::WithLoop { true } else if state == SubState::InFunc { false } else { old(scope).loop_alloc is Some },
            if state == SubState::InFunc { true } else { old(scope).fnc_alloc is Some },
            old(scope).lam_pass is Some),
        nodes_fault(old(block)@, shape(old(scope).names()), sat_inc(old(scope).level),
            if state == SubState::WithLoop { true } else if state == SubState::InFunc { false } else { old(scope).loop_alloc is Some },
            if state == SubState::InFunc { true } else { old(scope).fnc_alloc is Some },
            old(scope).lam_pass is Some) matches Some(f) ==> r == fault_result(f),
    decreases old(lams).live(), 2nat, *old(block), 1nat,
{
    let mut sub = scope.child(state);
    match walk_ast(block, &mut sub, lams, cap) {
        Ok(()) => {},
        Err(e) => return Err(e),
    }
    sub.check_decls(block);
    sub.migrate(scope);
    Ok(())
}

/// Walks the statements of a block in the current scope.  A `return` needs
/// an enclosing function or lambda, a `break` or `continue` an enclosing
/// loop; each records how many declarations it leaves behind.
/// Walks one statement of a block.
fn walk_node(node: &mut Node, scope: &mut Scope, lams: &mut Lams, cap: &mut CaptureStack) -> (r: WalkResult)
    ensures
        final(lams).same_slots(old(lams)),
        final(lams).live() == old(lams).live(),
        final(cap).view_seq().len() == old(cap).view_seq().len(),
        final(scope).level == old(scope).level,
        final(scope).lam_pass == old(scope).lam_pass,
        final(scope).loop_alloc is Some == old(scope).loop_alloc is Some,
        final(scope).fnc_alloc is Some == old(scope).fnc_alloc is Some,
        forall|k: usize| old(scope).names().contains_key(k) ==> #[trigger] final(scope).names().contains_key(k),
        old(scope).loop_alloc is None && is_loop_jump(*old(node)) ==> r is Err,
        old(scope).fnc_alloc is None && is_return(*old(node)) ==> r is Err,
        r is Ok ==> node_names_bound(*old(node), old(scope).names().dom(), mutable_names(old(scope).names())),
        r is Ok ==> (final(scope).names().dom(), mutable_names(final(scope).names()))
            == after_node(*old(node), old(scope).names().dom(), mutable_names(old(scope).names())),
        node_ok(*old(node), shape(old(scope).names()), old(scope).level, old(scope).loop_alloc is Some,
            old(scope).fnc_alloc is Some, old(scope).lam_pass is Some) ==> r is Ok,
        r is Ok ==> shape(final(scope).names()) == node_shape(*old(node), shape(old(scope).names()), old(scope).level),
        r is Ok && node_plain(*old(node)) ==> node_ok(*old(node), shape(old(scope).names()), old(scope).level,
            old(scope).loop_alloc is Some, old(scope).fnc_alloc is Some, old(scope).lam_pass is Some),
        node_fault(*old(node), shape(old(scope).names()), old(scope).level,
            old(scope).loop_alloc is Some, old(scope).fnc_alloc is Some, old(scope).lam_pass is Some) matches Some(f) ==> r == fault_result(f),
        r is Ok ==> final(scope).loop_alloc == bumped(old(scope).loop_alloc, node_decls(*old(node)))
            && final(scope).fnc_alloc == bumped(old(scope).fnc_alloc, node_decls(*old(node))),
        r is Ok && (*old(node)) is ControlFlow ==> flow_marked(*final(node), *old(node), old(scope).loop_alloc, old(scope).fnc_alloc),
    decreases old(lams).live(), 2nat, *old(node), 1nat,
{
    let ghost nb = scope.names();
    proof { lemma_shape_names(nb, 0, 0); }
    let is_chain = match &*node {
        Node::LogicChain { .. } => true,
        _ => false,
    };
    let r = if is_chain {
        walk_chain(node, scope, lams, cap)
    } else {
        match node {
        Node::ControlFlow(flow) => {
            match &mut flow.kind {
                BreakType::Return(expr) => {
                    match walk_expression(expr, scope, lams, cap) {
                        Ok(()) => {
                            match scope.fnc_alloc {
                                Some(allocs) => {
                                    flow.allocations = allocs;
                                    Ok(())
                                },
                                None => Err(WalkError {
                                    kind: WalkErrorType::InvalidReturn,
                                    start: flow.start.clone(),
                                    end: flow.end.clone(),
                                }),
                            }
                        },
                        Err(e) => Err(e),
                    }
                },
                BreakType::Break => {
                    match scope.loop_alloc {
                        Some(allocs) => {
                            flow.allocations = allocs;
                            Ok(())
                        },
                        None => Err(WalkError {
                            kind: WalkErrorType::InvalidBreak,
                            start: flow.start.clone(),
                            end: flow.end.clone(),
                        }),
                    }
                },
                BreakType::Continue => {
                    match scope.loop_alloc {
                        Some(allocs) => {
                            flow.allocations = allocs;
                            Ok(())
                        },
                        None => Err(WalkError {
                            kind: WalkErrorType::InvalidContinue,
                            start: flow.start.clone(),
                            end: flow.end.clone(),
                        }),
                    }
                },
            }
        },
        Node::Expression(expression) => walk_expression(expression, scope, lams, cap),
        Node::Block(inner) => walk_sub_block(inner, SubState::NoChange, scope, lams, cap),
        Node::While(pair) => {
            match walk_expression(&mut pair.condition, scope, lams, cap) {
                Ok(()) => {
                    let ghost nc = scope.names();
                    proof {
                        lemma_marks_same_names(nb, nc);
                        lemma_marks_same_shape(nb, nc);
                    }
                    let r = walk_sub_block(&mut pair.block, SubState::WithLoop, scope, lams, cap);
                    proof {
                        lemma_marks_same_names(nc, scope.names());
                    }
                    r
                },
                Err(e) => Err(e),
            }
        },
        Node::Declaration(declaration) => walk_decl(declaration, scope, lams, cap),
        Node::LogicChain { .. } => Ok(()),
        Node::For { declaration, condition, increment, body } => {
            let mut sub = scope.child(SubState::NoChange);
            let ghost q0 = sub.names();
            let r1 = match declaration {
                Some(d) => walk_decl(d, &mut sub, lams, cap),
                None => Ok(()),
            };
            let ghost q1 = sub.names();
            proof { lemma_shape_names(q1, 0, 0); }
            let r2 = match r1 {
                Ok(()) => match condition {
                    Some(c) => walk_expression(c, &mut sub, lams, cap),
                    None => Ok(()),
                },
                Err(e) => Err(e),
            };
            let ghost q2 = sub.names();
            proof {
                if r2 is Ok {
                    lemma_marks_same_names(q1, q2);
                    lemma_marks_same_shape(q1, q2);
                }
            }
            let r3 = match r2 {
                Ok(()) => match increment {
                    Some(c) => walk_expression(c, &mut sub, lams, cap),
                    None => Ok(()),
                },
                Err(e) => Err(e),
            };
            let ghost q3 = sub.names();
            proof {
                if r3 is Ok {
                    lemma_marks_same_names(q2, q3);
                    lemma_marks_same_shape(q2, q3);
                }
            }
            let r4 = match r3 {
                Ok(()) => walk_sub_block(body, SubState::WithLoop, &mut sub, lams, cap),
                Err(e) => Err(e),
            };
            match r4 {
                Ok(()) => {
                    let ghost pn = scope.names();
                    sub.migrate(scope);
                    proof {
                        lemma_migrated_same_names(pn, sub.names(), sub.names().dom());
                        lemma_migrated_same_shape(pn, sub.names(), sub.names().dom());
                    }
                    Ok(())
                },
                Err(e) => Err(e),
            }
        },
        }
    };
    proof {
        if r is Ok {
            match *old(node) {
                Node::Declaration(_) => {},
                Node::For { .. } => {},
                _ => {
                    lemma_marks_same_names(nb, scope.names());
                    lemma_marks_same_shape(nb, scope.names());
                },
            }
        }
    }
    r
}

pub fn walk_ast(nodes: &mut Vec<Node>, scope: &mut Scope, lams: &mut Lams, cap: &mut CaptureStack) -> (r: WalkResult)
    ensures
        final(lams).same_slots(old(lams)),
        final(lams).live() == old(lams).live(),
        final(cap).view_seq().len() == old(cap).view_seq().len(),
        final(scope).level == old(scope).level,
        final(scope).lam_pass == old(scope).lam_pass,
        final(scope).loop_alloc is Some == old(scope).loop_alloc is Some,
        final(scope).fnc_alloc is Some == old(scope).fnc_alloc is Some,
        forall|k: usize| old(scope).names().contains_key(k) ==> #[trigger] final(scope).names().contains_key(k),
        final(nodes)@.len() == old(nodes)@.len(),
        old(scope).loop_alloc is None && (exists|i: int| 0 <= i < old(nodes)@.len() && is_loop_jump(#[trigger] old(nodes)@[i])) ==> r is Err,
        old(scope).fnc_alloc is None && (exists|i: int| 0 <= i < old(nodes)@.len() && is_return(#[trigger] old(nodes)@[i])) ==> r is Err,
        r is Ok ==> nodes_names_bound(old(nodes)@, old(scope).names().dom(), mutable_names(old(scope).names())),
        r is Ok ==> (final(scope).names().dom(), mutable_names(final(scope).names()))
            == after_nodes(old(nodes)@, old(scope).names().dom(), mutable_names(old(scope).names())),
        nodes_ok(old(nodes)@, shape(old(scope).names()), old(scope).level, old(scope).loop_alloc is Some,
            old(scope).fnc_alloc is Some, old(scope).lam_pass is Some) ==> r is Ok,
        r is Ok ==> shape(final(scope).names()) == nodes_shape(old(nodes)@, shape(old(scope).names()), old(scope).level),
        r is Ok && nodes_plain(old(nodes)@) ==> nodes_ok(old(nodes)@, shape(old(scope).names()), old(scope).level,
            old(scope).loop_alloc is Some, old(scope).fnc_alloc is Some, old(scope).lam_pass is Some),
        nodes_fault(old(nodes)@, shape(old(scope).names()), old(scope).level,
            old(scope).loop_alloc is Some, old(scope).fnc_alloc is Some, old(scope).lam_pass is Some) matches Some(f) ==> r == fault_result(f),
        r is Ok ==> forall|j: int| 0 <= j < old(nodes)@.len() && (#[trigger] old(nodes)@[j]) is ControlFlow ==> flow_marked(
            final(nodes)@[j],
            old(nodes)@[j],
            bumped(old(scope).loop_alloc, crate::runtime::exec::decls_before(old(nodes)@, j)),
            bumped(old(scope).fnc_alloc, crate::runtime::exec::decls_before(old(nodes)@, j)),
        ),
        r is Ok ==> final(scope).loop_alloc == bumped(old(scope).loop_alloc, crate::runtime::exec::block_decls(old(nodes)@))
            && final(scope).fnc_alloc == bumped(old(scope).fnc_alloc, crate::runtime::exec::block_decls(old(nodes)@)),
    decreases old(lams).live(), 2nat, *old(nodes), 0nat,
{
    let ghost n0 = *nodes;
    let ghost b0 = scope.names().dom();
    let ghost m0 = mutable_names(scope.names());
    let mut i: usize = 0;
    proof {
        assert(n0@.take(0) =~= Seq::<Node>::empty());
    }
    while i < nodes.len()
        invariant
            n0 == *old(nodes),
            b0 == old(scope).names().dom(),
            m0 == mutable_names(old(scope).names()),
            nodes_names_bound(n0@.take(i as int), b0, m0),
            (scope.names().dom(), mutable_names(scope.names())) == after_nodes(n0@.take(i as int), b0, m0),
            shape(scope.names()) == nodes_shape(n0@.take(i as int), shape(old(scope).names()), old(scope).level),
            nodes_plain(n0@) ==> nodes_ok(n0@.take(i as int), shape(old(scope).names()), old(scope).level,
                old(scope).loop_alloc is Some, old(scope).fnc_alloc is Some, old(scope).lam_pass is Some),
            !(nodes_fault(n0@.take(i as int), shape(old(scope).names()), old(scope).level,
                old(scope).loop_alloc is Some, old(scope).fnc_alloc is Some, old(scope).lam_pass is Some) matches Some(Some(_))),
            scope.loop_alloc == bumped(old(scope).loop_alloc, crate::runtime::exec::decls_before(n0@, i as int)),
            scope.fnc_alloc == bumped(old(scope).fnc_alloc, crate::runtime::exec::decls_before(n0@, i as int)),
            forall|j: int| 0 <= j < i && (#[trigger] n0@[j]) is ControlFlow ==> flow_marked(
                nodes@[j],
                n0@[j],
                bumped(old(scope).loop_alloc, crate::runtime::exec::decls_before(n0@, j)),
                bumped(old(scope).fnc_alloc, crate::runtime::exec::decls_before(n0@, j)),
            ),
            nodes@.len() == n0@.len(),
            i <= nodes@.len(),
            forall|j: int| i <= j < nodes@.len() ==> #[trigger] nodes@[j] == n0@[j],
            lams.same_slots(old(lams)),
            lams.live() == old(lams).live(),
            cap.view_seq().len() == old(cap).view_seq().len(),
            scope.level == old(scope).level,
            scope.lam_pass == old(scope).lam_pass,
            scope.loop_alloc is Some == old(scope).loop_alloc is Some,
            scope.fnc_alloc is Some == old(scope).fnc_alloc is Some,
            forall|k: usize| old(scope).names().contains_key(k) ==> #[trigger] scope.names().contains_key(k),
            old(scope).loop_alloc is None ==> forall|j: int| 0 <= j < i ==> !is_loop_jump(#[trigger] n0@[j]),
            old(scope).fnc_alloc is None ==> forall|j: int| 0 <= j < i ==> !is_return(#[trigger] n0@[j]),
        decreases nodes@.len() - i,
    {
        proof {
            assert(decreases_to!(n0 => n0@));
            assert(decreases_to!(n0@ => n0@[i as int]));
            assert(decreases_to!(n0 => n0@[i as int]));
        }
        let ghost before = nodes@;
        let ghost scope_before = *scope;
        proof {
            let sh0 = shape(old(scope).names());
            assert(n0@.take(i + 1).drop_last() =~= n0@.take(i as int));
            assert(n0@.take(i + 1).last() == n0@[i as int]);
            if nodes_ok(n0@, sh0, old(scope).level, old(scope).loop_alloc is Some, old(scope).fnc_alloc is Some,
                old(scope).lam_pass is Some) {
                lemma_nodes_ok_prefix(n0@, sh0, old(scope).level, old(scope).loop_alloc is Some,
                    old(scope).fnc_alloc is Some, old(scope).lam_pass is Some, i + 1);
            }
            if nodes_plain(n0@) {
                lemma_nodes_plain_prefix(n0@, i + 1);
            }
        }
        let r = walk_node(&mut nodes[i], scope, lams, cap);
        match r {
            Ok(()) => {},
            Err(e) => {
                proof {
                    if true {
                        lemma_nodes_fault_prefix(n0@, shape(old(scope).names()), old(scope).level, old(scope).loop_alloc is Some,
                            old(scope).fnc_alloc is Some, old(scope).lam_pass is Some, i + 1, n0@.len() as int);
                        assert(n0@.take(n0@.len() as int) =~= n0@);
                    }
                }
                return Err(e);
            },
        }
        proof {
            assert forall|j: int| i < j < nodes@.len() implies #[trigger] nodes@[j] == n0@[j] by {}
            assert(n0@.take(i + 1).drop_last() =~= n0@.take(i as int));
            assert(n0@.take(i + 1).last() == n0@[i as int]);
            assert(crate::runtime::exec::decls_before(n0@, i + 1) == crate::runtime::exec::decls_before(n0@, i as int)
                + node_decls(n0@[i as int]));
            assert forall|j: int| 0 <= j < i + 1 && (#[trigger] n0@[j]) is ControlFlow implies flow_marked(
                nodes@[j],
                n0@[j],
                bumped(old(scope).loop_alloc, crate::runtime::exec::decls_before(n0@, j)),
                bumped(old(scope).fnc_alloc, crate::runtime::exec::decls_before(n0@, j)),
            ) by {
                if j < i {
                    assert(nodes@[j] == before[j]);
                }
            }
        }
        i = i + 1;
    }
    proof {
        assert(n0@.take(i as int) =~= n0@);
    }
    Ok(())
}

/// Walks an `if` chain: each condition in the current scope, each block in
/// a nested one.
pub fn walk_chain(node: &mut Node, scope: &mut Scope, lams: &mut Lams, cap: &mut CaptureStack) -> (r: WalkResult)
    ensures
        final(lams).same_slots(old(lams)),
        final(lams).live() == old(lams).live(),
        final(cap).view_seq().len() == old(cap).view_seq().len(),
        final(scope).same_frame(old(scope)),
        marks_only(old(scope).names(), final(scope).names()),
        (*old(node)) is LogicChain && r is Ok ==> node_names_bound(*old(node), old(scope).names().dom(), mutable_names(old(scope).names())),
        (*old(node)) is LogicChain && node_ok(*old(node), shape(old(scope).names()), old(scope).level,
            old(scope).loop_alloc is Some, old(scope).fnc_alloc is Some, old(scope).lam_pass is Some) ==> r is Ok,
        (*old(node)) is LogicChain && r is Ok && node_plain(*old(node)) ==> node_ok(*old(node), shape(old(scope).names()),
            old(scope).level, old(scope).loop_alloc is Some, old(scope).fnc_alloc is Some, old(scope).lam_pass is Some),
        (*old(node)) is LogicChain ==> (node_fault(*old(node), shape(old(scope).names()),
            old(scope).level, old(scope).loop_alloc is Some, old(scope).fnc_alloc is Some, old(scope).lam_pass is Some) matches Some(f) ==> r == fault_result(f)),
    decreases old(lams).live(), 2nat, *old(node), 0nat,
{
    let ghost n0 = *node;
    let ghost s0 = scope.names();
    match node {
        Node::LogicChain { if_block, elseifs, else_block } => {
            proof { lemma_shape_names(s0, 0, 0); }
            match walk_expression(&mut if_block.condition, scope, lams, cap) {
                Ok(()) => {},
                Err(e) => return Err(e),
            }
            proof {
                lemma_marks_same_names(s0, scope.names());
                lemma_marks_same_shape(s0, scope.names());
            }
            match walk_sub_block(&mut if_block.block, SubState::NoChange, scope, lams, cap) {
                Ok(()) => {},
                Err(e) => return Err(e),
            }
            let ghost e0 = *elseifs;
            proof {
                assert(decreases_to!(n0 => e0));
                assert(e0@.take(0) =~= Seq::<ConditionBodyPair>::empty());
            }
            let mut k: usize = 0;
            while k < elseifs.len()
                invariant
                    decreases_to!(n0 => e0),
                    n0 == *old(node),
                    elseifs@.len() == e0@.len(),
                    k <= elseifs@.len(),
                    forall|j: int| k <= j < elseifs@.len() ==> #[trigger] elseifs@[j] == e0@[j],
                    lams.same_slots(old(lams)),
                    lams.live() == old(lams).live(),
                    cap.view_seq().len() == old(cap).view_seq().len(),
                    scope.same_frame(old(scope)),
                    marks_only(old(scope).names(), scope.names()),
                    s0 == old(scope).names(),
                    pairs_names_bound(e0@.take(k as int), s0.dom(), mutable_names(s0)),
                    node_ok(n0, shape(s0), old(scope).level, old(scope).loop_alloc is Some, old(scope).fnc_alloc is Some,
                        old(scope).lam_pass is Some) ==> pairs_ok(e0@, shape(s0), sat_inc(old(scope).level),
                        old(scope).loop_alloc is Some, old(scope).fnc_alloc is Some, old(scope).lam_pass is Some),
                    node_plain(n0) ==> pairs_plain(e0@),
                    node_plain(n0) ==> pairs_ok(e0@.take(k as int), shape(s0), sat_inc(old(scope).level),
                        old(scope).loop_alloc is Some, old(scope).fnc_alloc is Some, old(scope).lam_pass is Some),
                    !(pairs_fault(e0@.take(k as int), shape(s0), sat_inc(old(scope).level),
                        old(scope).loop_alloc is Some, old(scope).fnc_alloc is Some, old(scope).lam_pass is Some) matches Some(Some(_))),
                    n0 matches Node::LogicChain { elseifs: x, .. } && x == e0,
                    n0 matches Node::LogicChain { if_block: ib, .. } && !(first_fault(expr_fault(ib.condition, shape(s0).dom(),
                        crate::ast::analysis::accepted::shape_muts(shape(s0)), old(scope).lam_pass is Some),
                        nodes_fault(ib.block@, shape(s0), sat_inc(old(scope).level), old(scope).loop_alloc is Some,
                        old(scope).fnc_alloc is Some, old(scope).lam_pass is Some)) matches Some(Some(_))),
                decreases elseifs@.len() - k,
            {
                proof {
                    assert(decreases_to!(e0 => e0@));
                    assert(decreases_to!(e0@ => e0@[k as int]));
                    assert(decreases_to!(n0 => e0@[k as int]));
                    lemma_marks_same_names(s0, scope.names());
                    lemma_marks_same_shape(s0, scope.names());
                    lemma_shape_names(s0, 0, 0);
                    let t = old(scope).lam_pass is Some;
                    let lp = old(scope).loop_alloc is Some;
                    let fp = old(scope).fnc_alloc is Some;
                    assert(e0@.take(k + 1).last() == e0@[k as int]);
                    assert(e0@.take(k + 1).drop_last() =~= e0@.take(k as int));
                    if node_ok(n0, shape(s0), old(scope).level, lp, fp, t) {
                        lemma_pairs_ok_prefix(e0@, shape(s0), sat_inc(old(scope).level), lp, fp, t, k + 1);
                    }
                    if node_plain(n0) {
                        lemma_pairs_plain_prefix(e0@, k + 1);
                    }
                }
                match walk_expression(&mut elseifs[k].condition, scope, lams, cap) {
                    Ok(()) => {},
                    Err(e) => {
                        proof {
                            if true {
                                assert(pairs_fault(e0@.take(k + 1), shape(s0), sat_inc(old(scope).level), old(scope).loop_alloc is Some,
                                    old(scope).fnc_alloc is Some, old(scope).lam_pass is Some) != Some(None::<WalkError>));
                                lemma_pairs_fault_prefix(e0@, shape(s0), sat_inc(old(scope).level), old(scope).loop_alloc is Some,
                                    old(scope).fnc_alloc is Some, old(scope).lam_pass is Some, k + 1, e0@.len() as int);
                                assert(e0@.take(e0@.len() as int) =~= e0@);
                            }
                        }
                        return Err(e);
                    },
                }
                proof {
                    lemma_marks_same_names(s0, scope.names());
                    lemma_marks_same_shape(s0, scope.names());
                }
                match walk_sub_block(&mut elseifs[k].block, SubState::NoChange, scope, lams, cap) {
                    Ok(()) => {},
                    Err(e) => {
                        proof {
                            if true {
                                assert(pairs_fault(e0@.take(k + 1), shape(s0), sat_inc(old(scope).level), old(scope).loop_alloc is Some,
                                    old(scope).fnc_alloc is Some, old(scope).lam_pass is Some) != Some(None::<WalkError>));
                                lemma_pairs_fault_prefix(e0@, shape(s0), sat_inc(old(scope).level), old(scope).loop_alloc is Some,
                                    old(scope).fnc_alloc is Some, old(scope).lam_pass is Some, k + 1, e0@.len() as int);
                                assert(e0@.take(e0@.len() as int) =~= e0@);
                            }
                        }
                        return Err(e);
                    },
                }
                proof {
                    assert forall|j: int| k < j < elseifs@.len() implies #[trigger] elseifs@[j] == e0@[j] by {}
                    assert(e0@.take(k + 1).drop_last() =~= e0@.take(k as int));
                    assert(e0@.take(k + 1).last() == e0@[k as int]);
                }
                k = k + 1;
            }
            proof {
                assert(e0@.take(k as int) =~= e0@);
                lemma_marks_same_names(s0, scope.names());
                lemma_marks_same_shape(s0, scope.names());
            }
            match else_block {
                Some(b) => walk_sub_block(b, SubState::NoChange, scope, lams, cap),
                None => Ok(()),
            }
        },
        _ => Ok(()),
    }
}

} // verus!
