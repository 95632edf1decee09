//! Which blocks the reference check accepts.  Apart from lambdas, getters
//! and setters, whose bodies live in the program's tables, a block passes
//! when every name it reads is visible, every name it assigns may be
//! assigned, no declaration takes a name already declared at the same
//! depth, `break` and `continue` stand in loops, `return` in a function and
//! `this` in a lambda.
use crate::ast::analysis::imports::{exported, fn_names, imports_names, list_names};
use crate::ast::analysis::scope::{clashes, migrated, sat_inc, DefData};
use crate::ast::analysis::walk::{expr_fault, expr_names_bound, first_fault, marks_only, nodes_names_bound, plain_expr};
use crate::ast::analysis::{WalkError, WalkErrorType};
use crate::ast::native::native_fn_names;
use crate::ast::node::{
    LambdaBody, param_names, pub_fn_names, BreakType, ConditionBodyPair, CustomModule, Declarator, Expression, Import, ImportKind, Module, Node,
    Procedure, Program,
};
use vstd::prelude::*;

verus! {

/// What the checks need to know of a binding: the depth at which it was
/// made, whether it may be assigned, and whether it is an import.
pub type Shape = Map<usize, (usize, bool, bool)>;

/// The shape of a scope's bindings.
pub open spec fn shape(m: Map<usize, DefData>) -> Shape {
    Map::new(|k: usize| m.contains_key(k), |k: usize| (m[k].level, m[k].spec_is_mut(), m[k].spec_is_import()))
}

/// The names that may be assigned.
pub open spec fn shape_muts(s: Shape) -> Set<usize> {
    Set::new(|k: usize| s.contains_key(k) && s[k].1)
}

/// Whether a declaration at depth `level` may take `name`: only an import
/// may be shadowed at the depth where it was bound.
pub open spec fn free_at(s: Shape, name: usize, level: usize) -> bool {
    !(s.contains_key(name) && s[name].0 == level && !s[name].2)
}

/// Whether an expression passes: no lambda body in it, `this` only where
/// allowed, and its names visible (and assignable where assigned).
pub open spec fn expr_ok(e: Expression, s: Shape, this_ok: bool) -> bool {
    plain_expr(e, this_ok) && expr_names_bound(e, s.dom(), shape_muts(s))
}

/// The bindings after the declarators `ds` at depth `level`.
pub open spec fn decls_shape(ds: Seq<Declarator>, mutable: bool, s: Shape, level: usize) -> Shape
    decreases ds.len(),
{
    if ds.len() == 0 {
        s
    } else {
        decls_shape(ds.drop_last(), mutable, s, level).insert(ds.last().identifier.data, (level, mutable, false))
    }
}

/// Whether the declarators `ds` pass: each value with the names visible
/// where it stands, each name free at this depth.
pub open spec fn decls_ok(ds: Seq<Declarator>, mutable: bool, s: Shape, level: usize, this_ok: bool) -> bool
    decreases ds.len(),
{
    if ds.len() == 0 {
        true
    } else {
        let s1 = decls_shape(ds.drop_last(), mutable, s, level);
        &&& decls_ok(ds.drop_last(), mutable, s, level, this_ok)
        &&& expr_ok(ds.last().value, s1, this_ok)
        &&& free_at(s1, ds.last().identifier.data, level)
    }
}

/// Whether each name of the declarators `ds` is free where it is declared:
/// no earlier binding at depth `level` other than an import takes it, the
/// earlier declarators included.
pub open spec fn decls_free(ds: Seq<Declarator>, mutable: bool, s: Shape, level: usize) -> bool
    decreases ds.len(),
{
    if ds.len() == 0 {
        true
    } else {
        decls_free(ds.drop_last(), mutable, s, level) && free_at(decls_shape(ds.drop_last(), mutable, s, level),
            ds.last().identifier.data, level)
    }
}

/// The first error that checking the declarators `ds` at depth `level`
/// meets: each value in turn with the names visible where it stands, then
/// its name, which must be free at this depth (else the error is
/// `InvalidRedefinition` at the name).
pub open spec fn decls_fault(ds: Seq<Declarator>, mutable: bool, s: Shape, level: usize, this_ok: bool) -> Option<Option<WalkError>>
    decreases ds.len(),
{
    if ds.len() == 0 {
        Some(None)
    } else {
        let s1 = decls_shape(ds.drop_last(), mutable, s, level);
        let id = ds.last().identifier;
        first_fault(
            decls_fault(ds.drop_last(), mutable, s, level, this_ok),
            first_fault(
                expr_fault(ds.last().value, s1.dom(), shape_muts(s1), this_ok),
                if free_at(s1, id.data, level) {
                    Some(None)
                } else {
                    Some(Some(WalkError { start: id.start, end: id.end, kind: WalkErrorType::InvalidRedefinition(id.data) }))
                },
            ),
        )
    }
}

/// Once a prefix of declarators has an error, every longer prefix has the
/// same first error.
pub proof fn lemma_decls_fault_prefix(ds: Seq<Declarator>, mutable: bool, s: Shape, level: usize, this_ok: bool, j: int, k: int)
    requires
        0 <= j <= k <= ds.len(),
        decls_fault(ds.take(j), mutable, s, level, this_ok) != Some(None::<WalkError>),
    ensures
        decls_fault(ds.take(k), mutable, s, level, this_ok) == decls_fault(ds.take(j), mutable, s, level, this_ok),
    decreases k - j,
{
    if j < k {
        lemma_decls_fault_prefix(ds, mutable, s, level, this_ok, j, k - 1);
        assert(ds.take(k).drop_last() =~= ds.take(k - 1));
    }
}

/// The bindings after one statement: only a declaration adds any.
pub open spec fn node_shape(n: Node, s: Shape, level: usize) -> Shape {
    match n {
        Node::Declaration(d) => decls_shape(d.declarations@, d.mutable, s, level),
        _ => s,
    }
}

/// The bindings after a sequence of statements.
pub open spec fn nodes_shape(ns: Seq<Node>, s: Shape, level: usize) -> Shape
    decreases ns.len(),
{
    if ns.len() == 0 {
        s
    } else {
        node_shape(ns.last(), nodes_shape(ns.drop_last(), s, level), level)
    }
}

/// Whether a block passes at depth `level`, inside a loop or not, inside
/// a function or not, and where `this` is allowed or not.
pub open spec fn nodes_ok(ns: Seq<Node>, s: Shape, level: usize, in_loop: bool, in_fn: bool, this_ok: bool) -> bool
    decreases ns,
{
    if ns.len() == 0 {
        true
    } else {
        &&& nodes_ok(ns.drop_last(), s, level, in_loop, in_fn, this_ok)
        &&& node_ok(ns.last(), nodes_shape(ns.drop_last(), s, level), level, in_loop, in_fn, this_ok)
    }
}

/// Whether one statement passes; a nested block is one level deeper.
pub open spec fn node_ok(n: Node, s: Shape, level: usize, in_loop: bool, in_fn: bool, this_ok: bool) -> bool
    decreases n,
{
    let inner = sat_inc(level);
    match n {
        Node::Expression(e) => expr_ok(e, s, this_ok),
        Node::Block(b) => nodes_ok(b@, s, inner, in_loop, in_fn, this_ok),
        Node::While(p) => expr_ok(p.condition, s, this_ok) && nodes_ok(p.block@, s, inner, true, in_fn, this_ok),
        Node::Declaration(d) => decls_ok(d.declarations@, d.mutable, s, level, this_ok),
        Node::ControlFlow(f) => match f.kind {
            BreakType::Return(e) => in_fn && expr_ok(e, s, this_ok),
            _ => in_loop,
        },
        Node::LogicChain { if_block, elseifs, else_block } => {
            &&& expr_ok(if_block.condition, s, this_ok)
            &&& nodes_ok(if_block.block@, s, inner, in_loop, in_fn, this_ok)
            &&& pairs_ok(elseifs@, s, inner, in_loop, in_fn, this_ok)
            &&& match else_block {
                Some(b) => nodes_ok(b@, s, inner, in_loop, in_fn, this_ok),
                None => true,
            }
        },
        Node::For { declaration, condition, increment, body } => {
            let s1 = match declaration {
                Some(d) => decls_shape(d.declarations@, d.mutable, s, inner),
                None => s,
            };
            &&& match declaration {
                Some(d) => decls_ok(d.declarations@, d.mutable, s, inner, this_ok),
                None => true,
            }
            &&& match condition {
                Some(c) => expr_ok(c, s1, this_ok),
                None => true,
            }
            &&& match increment {
                Some(c) => expr_ok(c, s1, this_ok),
                None => true,
            }
            &&& nodes_ok(body@, s1, sat_inc(inner), true, in_fn, this_ok)
        },
    }
}

/// The first error that checking a block at depth `level` meets, walking
/// its statements in order (see `node_fault`); `None` when it passes.
pub open spec fn nodes_fault(ns: Seq<Node>, s: Shape, level: usize, in_loop: bool, in_fn: bool, this_ok: bool) -> Option<Option<WalkError>>
    decreases ns,
{
    if ns.len() == 0 {
        Some(None)
    } else {
        first_fault(
            nodes_fault(ns.drop_last(), s, level, in_loop, in_fn, this_ok),
            node_fault(ns.last(), nodes_shape(ns.drop_last(), s, level), level, in_loop, in_fn, this_ok),
        )
    }
}

/// The first error that checking one statement meets: its expressions and
/// inner blocks in the order they are written, a misplaced `return`,
/// `break` or `continue` at the statement's own place (after the value of
/// a `return`).
pub open spec fn node_fault(n: Node, s: Shape, level: usize, in_loop: bool, in_fn: bool, this_ok: bool) -> Option<Option<WalkError>>
    decreases n,
{
    let inner = sat_inc(level);
    let ef = |e: Expression, sh: Shape| expr_fault(e, sh.dom(), shape_muts(sh), this_ok);
    match n {
        Node::Expression(e) => ef(e, s),
        Node::Block(b) => nodes_fault(b@, s, inner, in_loop, in_fn, this_ok),
        Node::While(p) => first_fault(ef(p.condition, s), nodes_fault(p.block@, s, inner, true, in_fn, this_ok)),
        Node::Declaration(d) => decls_fault(d.declarations@, d.mutable, s, level, this_ok),
        Node::ControlFlow(f) => match f.kind {
            BreakType::Return(e) => first_fault(
                ef(e, s),
                if in_fn {
                    Some(None)
                } else {
                    Some(Some(WalkError { start: f.start, end: f.end, kind: WalkErrorType::InvalidReturn }))
                },
            ),
            BreakType::Break => if in_loop {
                Some(None)
            } else {
                Some(Some(WalkError { start: f.start, end: f.end, kind: WalkErrorType::InvalidBreak }))
            },
            BreakType::Continue => if in_loop {
                Some(None)
            } else {
                Some(Some(WalkError { start: f.start, end: f.end, kind: WalkErrorType::InvalidContinue }))
            },
        },
        Node::LogicChain { if_block, elseifs, else_block } => first_fault(
            ef(if_block.condition, s),
            first_fault(
                nodes_fault(if_block.block@, s, inner, in_loop, in_fn, this_ok),
                first_fault(
                    pairs_fault(elseifs@, s, inner, in_loop, in_fn, this_ok),
                    match else_block {
                        Some(b) => nodes_fault(b@, s, inner, in_loop, in_fn, this_ok),
                        None => Some(None),
                    },
                ),
            ),
        ),
        Node::For { declaration, condition, increment, body } => {
            let s1 = match declaration {
                Some(d) => decls_shape(d.declarations@, d.mutable, s, inner),
                None => s,
            };
            first_fault(
                match declaration {
                    Some(d) => decls_fault(d.declarations@, d.mutable, s, inner, this_ok),
                    None => Some(None),
                },
                first_fault(
                    match condition {
                        Some(c) => ef(c, s1),
                        None => Some(None),
                    },
                    first_fault(
                        match increment {
                            Some(c) => ef(c, s1),
                            None => Some(None),
                        },
                        nodes_fault(body@, s1, sat_inc(inner), true, in_fn, this_ok),
                    ),
                ),
            )
        },
    }
}

/// `nodes_fault` for the `else if` branches of a chain, each condition
/// before its block.
pub open spec fn pairs_fault(ps: Seq<ConditionBodyPair>, s: Shape, inner: usize, in_loop: bool, in_fn: bool, this_ok: bool) -> Option<Option<WalkError>>
    decreases ps,
{
    if ps.len() == 0 {
        Some(None)
    } else {
        first_fault(
            pairs_fault(ps.drop_last(), s, inner, in_loop, in_fn, this_ok),
            first_fault(
                expr_fault(ps.last().condition, s.dom(), shape_muts(s), this_ok),
                nodes_fault(ps.last().block@, s, inner, in_loop, in_fn, this_ok),
            ),
        )
    }
}

/// Once a prefix of a block has an error, every longer prefix has the same
/// first error.
pub proof fn lemma_nodes_fault_prefix(ns: Seq<Node>, s: Shape, level: usize, in_loop: bool, in_fn: bool, this_ok: bool, j: int, k: int)
    requires
        0 <= j <= k <= ns.len(),
        nodes_fault(ns.take(j), s, level, in_loop, in_fn, this_ok) != Some(None::<WalkError>),
    ensures
        nodes_fault(ns.take(k), s, level, in_loop, in_fn, this_ok) == nodes_fault(ns.take(j), s, level, in_loop, in_fn, this_ok),
    decreases k - j,
{
    if j < k {
        lemma_nodes_fault_prefix(ns, s, level, in_loop, in_fn, this_ok, j, k - 1);
        assert(ns.take(k).drop_last() =~= ns.take(k - 1));
    }
}

/// `lemma_nodes_fault_prefix` for the `else if` branches of a chain.
pub proof fn lemma_pairs_fault_prefix(ps: Seq<ConditionBodyPair>, s: Shape, inner: usize, in_loop: bool, in_fn: bool, this_ok: bool, j: int, k: int)
    requires
        0 <= j <= k <= ps.len(),
        pairs_fault(ps.take(j), s, inner, in_loop, in_fn, this_ok) != Some(None::<WalkError>),
    ensures
        pairs_fault(ps.take(k), s, inner, in_loop, in_fn, this_ok) == pairs_fault(ps.take(j), s, inner, in_loop, in_fn, this_ok),
    decreases k - j,
{
    if j < k {
        lemma_pairs_fault_prefix(ps, s, inner, in_loop, in_fn, this_ok, j, k - 1);
        assert(ps.take(k).drop_last() =~= ps.take(k - 1));
    }
}

/// `nodes_ok` for the `else if` branches of a chain, whose blocks are at
/// depth `inner`.
pub open spec fn pairs_ok(ps: Seq<ConditionBodyPair>, s: Shape, inner: usize, in_loop: bool, in_fn: bool, this_ok: bool) -> bool
    decreases ps,
{
    if ps.len() == 0 {
        true
    } else {
        &&& pairs_ok(ps.drop_last(), s, inner, in_loop, in_fn, this_ok)
        &&& expr_ok(ps.last().condition, s, this_ok)
        &&& nodes_ok(ps.last().block@, s, inner, in_loop, in_fn, this_ok)
    }
}

/// Whether the values of the declarators `ds` hold no lambda, getter or
/// setter.
pub open spec fn decls_plain(ds: Seq<Declarator>) -> bool
    decreases ds.len(),
{
    if ds.len() == 0 {
        true
    } else {
        decls_plain(ds.drop_last()) && plain_expr(ds.last().value, true)
    }
}

/// Whether no statement of a block holds a lambda, getter or setter.
pub open spec fn nodes_plain(ns: Seq<Node>) -> bool
    decreases ns,
{
    if ns.len() == 0 {
        true
    } else {
        nodes_plain(ns.drop_last()) && node_plain(ns.last())
    }
}

/// Whether a statement holds no lambda, getter or setter.
pub open spec fn node_plain(n: Node) -> bool
    decreases n,
{
    match n {
        Node::Expression(e) => plain_expr(e, true),
        Node::Block(b) => nodes_plain(b@),
        Node::While(p) => plain_expr(p.condition, true) && nodes_plain(p.block@),
        Node::Declaration(d) => decls_plain(d.declarations@),
        Node::ControlFlow(f) => match f.kind {
            BreakType::Return(e) => plain_expr(e, true),
            _ => true,
        },
        Node::LogicChain { if_block, elseifs, else_block } => {
            &&& plain_expr(if_block.condition, true)
            &&& nodes_plain(if_block.block@)
            &&& pairs_plain(elseifs@)
            &&& match else_block {
                Some(b) => nodes_plain(b@),
                None => true,
            }
        },
        Node::For { declaration, condition, increment, body } => {
            &&& match declaration {
                Some(d) => decls_plain(d.declarations@),
                None => true,
            }
            &&& match condition {
                Some(c) => plain_expr(c, true),
                None => true,
            }
            &&& match increment {
                Some(c) => plain_expr(c, true),
                None => true,
            }
            &&& nodes_plain(body@)
        },
    }
}

/// `nodes_plain` for the `else if` branches of a chain.
pub open spec fn pairs_plain(ps: Seq<ConditionBodyPair>) -> bool
    decreases ps,
{
    if ps.len() == 0 {
        true
    } else {
        pairs_plain(ps.drop_last()) && plain_expr(ps.last().condition, true) && nodes_plain(ps.last().block@)
    }
}

/// Whether no statement of a program, of its procedures or of its loaded
/// modules' procedures holds a lambda, getter or setter.
pub open spec fn program_plain(p: Program) -> bool {
    &&& nodes_plain(p.body@)
    &&& forall|i: int| 0 <= i < p.functions@.len() ==> nodes_plain((#[trigger] p.functions@[i]).body@)
    &&& forall|m: int, i: int| 0 <= m < p.modules@.len() && 0 <= i < p.modules@[m].functions@.len()
        ==> nodes_plain((#[trigger] p.modules@[m].functions@[i]).body@)
}

/// A prefix of plain declarators is plain.
pub proof fn lemma_decls_plain_prefix(ds: Seq<Declarator>, j: int)
    requires
        0 <= j <= ds.len(),
        decls_plain(ds),
    ensures
        decls_plain(ds.take(j)),
    decreases ds.len(),
{
    if j < ds.len() {
        lemma_decls_plain_prefix(ds.drop_last(), j);
        assert(ds.drop_last().take(j) =~= ds.take(j));
    } else {
        assert(ds.take(j) =~= ds);
    }
}

/// A prefix of plain statements is plain.
pub proof fn lemma_nodes_plain_prefix(ns: Seq<Node>, j: int)
    requires
        0 <= j <= ns.len(),
        nodes_plain(ns),
    ensures
        nodes_plain(ns.take(j)),
    decreases ns.len(),
{
    if j < ns.len() {
        lemma_nodes_plain_prefix(ns.drop_last(), j);
        assert(ns.drop_last().take(j) =~= ns.take(j));
    } else {
        assert(ns.take(j) =~= ns);
    }
}

/// A prefix of plain `else if` branches is plain.
pub proof fn lemma_pairs_plain_prefix(ps: Seq<ConditionBodyPair>, j: int)
    requires
        0 <= j <= ps.len(),
        pairs_plain(ps),
    ensures
        pairs_plain(ps.take(j)),
    decreases ps.len(),
{
    if j < ps.len() {
        lemma_pairs_plain_prefix(ps.drop_last(), j);
        assert(ps.drop_last().take(j) =~= ps.take(j));
    } else {
        assert(ps.take(j) =~= ps);
    }
}

/// `nodes_names_bound` for the body of a lambda, getter or setter.
pub open spec fn body_names_bound(b: LambdaBody, bound: Set<usize>, muts: Set<usize>) -> bool {
    match b {
        LambdaBody::Block(ns) => nodes_names_bound(ns@, bound, muts),
        LambdaBody::ImplicitReturn(e) => expr_names_bound(*e, bound, muts),
    }
}

/// Whether the body of a lambda, getter or setter passes: its statements,
/// or the expression it returns.
pub open spec fn body_ok(b: LambdaBody, s: Shape, level: usize, in_loop: bool, in_fn: bool, this_ok: bool) -> bool {
    match b {
        LambdaBody::Block(ns) => nodes_ok(ns@, s, level, in_loop, in_fn, this_ok),
        LambdaBody::ImplicitReturn(e) => expr_ok(*e, s, this_ok),
    }
}

/// Whether the body of a lambda, getter or setter holds no lambda, getter
/// or setter.
pub open spec fn body_plain(b: LambdaBody) -> bool {
    match b {
        LambdaBody::Block(ns) => nodes_plain(ns@),
        LambdaBody::ImplicitReturn(e) => plain_expr(*e, true),
    }
}

/// Marking captures leaves the shape of a scope unchanged.
pub proof fn lemma_marks_same_shape(a: Map<usize, DefData>, b: Map<usize, DefData>)
    requires
        marks_only(a, b),
    ensures
        shape(a) == shape(b),
{
    assert(shape(a) =~= shape(b)) by {
        assert forall|k: usize| #[trigger] shape(a).contains_key(k) implies shape(a)[k] == shape(b)[k] by {
            assert(a.contains_key(k));
        }
    }
}

/// Handing captures back from a nested scope leaves the shape unchanged.
pub proof fn lemma_migrated_same_shape(parent: Map<usize, DefData>, child: Map<usize, DefData>, keys: Set<usize>)
    ensures
        shape(migrated(parent, child, keys)) == shape(parent),
{
    assert(shape(migrated(parent, child, keys)) =~= shape(parent));
}

/// Binding a name adds its shape.
pub proof fn lemma_insert_shape(m: Map<usize, DefData>, name: usize, d: DefData)
    ensures
        shape(m.insert(name, d)) == shape(m).insert(name, (d.level, d.spec_is_mut(), d.spec_is_import())),
{
    assert(shape(m.insert(name, d)) =~= shape(m).insert(name, (d.level, d.spec_is_mut(), d.spec_is_import())));
}

/// The shape gives the visible names, those that may be assigned and
/// those a declaration may not take.
pub proof fn lemma_shape_names(m: Map<usize, DefData>, name: usize, level: usize)
    ensures
        shape(m).dom() == m.dom(),
        shape_muts(shape(m)) == crate::ast::analysis::walk::mutable_names(m),
        free_at(shape(m), name, level) == !clashes(m, name, level),
{
    assert(shape(m).dom() =~= m.dom());
    assert(shape_muts(shape(m)) =~= crate::ast::analysis::walk::mutable_names(m));
}

/// A prefix of declarators that pass passes.
pub proof fn lemma_decls_ok_prefix(ds: Seq<Declarator>, mutable: bool, s: Shape, level: usize, this_ok: bool, j: int)
    requires
        0 <= j <= ds.len(),
        decls_ok(ds, mutable, s, level, this_ok),
    ensures
        decls_ok(ds.take(j), mutable, s, level, this_ok),
    decreases ds.len(),
{
    if j < ds.len() {
        lemma_decls_ok_prefix(ds.drop_last(), mutable, s, level, this_ok, j);
        assert(ds.drop_last().take(j) =~= ds.take(j));
    } else {
        assert(ds.take(j) =~= ds);
    }
}

/// A prefix of statements that pass passes.
pub proof fn lemma_nodes_ok_prefix(ns: Seq<Node>, s: Shape, level: usize, in_loop: bool, in_fn: bool, this_ok: bool, j: int)
    requires
        0 <= j <= ns.len(),
        nodes_ok(ns, s, level, in_loop, in_fn, this_ok),
    ensures
        nodes_ok(ns.take(j), s, level, in_loop, in_fn, this_ok),
    decreases ns.len(),
{
    if j < ns.len() {
        lemma_nodes_ok_prefix(ns.drop_last(), s, level, in_loop, in_fn, this_ok, j);
        assert(ns.drop_last().take(j) =~= ns.take(j));
    } else {
        assert(ns.take(j) =~= ns);
    }
}

/// A prefix of `else if` branches that pass passes.
pub proof fn lemma_pairs_ok_prefix(ps: Seq<ConditionBodyPair>, s: Shape, inner: usize, in_loop: bool, in_fn: bool, this_ok: bool, j: int)
    requires
        0 <= j <= ps.len(),
        pairs_ok(ps, s, inner, in_loop, in_fn, this_ok),
    ensures
        pairs_ok(ps.take(j), s, inner, in_loop, in_fn, this_ok),
    decreases ps.len(),
{
    if j < ps.len() {
        lemma_pairs_ok_prefix(ps.drop_last(), s, inner, in_loop, in_fn, this_ok, j);
        assert(ps.drop_last().take(j) =~= ps.take(j));
    } else {
        assert(ps.take(j) =~= ps);
    }
}

/// The names of the public procedures of each loaded module.
pub open spec fn pubs_of(modules: Seq<CustomModule>) -> Seq<Seq<usize>> {
    modules.map_values(|c: CustomModule| pub_fn_names(c.functions@))
}

/// Whether `module` offers the function named by string `name`, where
/// `pubs` lists the public procedures of each loaded module.
pub open spec fn offered(module: Module, pubs: Seq<Seq<usize>>, strings: Seq<String>, name: usize) -> bool {
    match module {
        Module::Custom(ind) => ind < pubs.len() && pubs[ind as int].contains(name),
        Module::Native(pkg) => name < strings.len() && native_fn_names(pkg).contains(strings[name as int]@),
    }
}

/// The names an import binds.
pub open spec fn binds(import: Import, pubs: Seq<Seq<usize>>, strings: Seq<String>) -> Set<usize> {
    match import.kind {
        ImportKind::All => Set::new(|k: usize| offered(import.module, pubs, strings, k)),
        ImportKind::ModuleObject(l) => set![l.data],
        ImportKind::List(list) => list_names(list@).to_set(),
    }
}

/// The names a file's imports bind.
pub open spec fn imports_bind(imports: Seq<Import>, pubs: Seq<Seq<usize>>, strings: Seq<String>) -> Set<usize> {
    Set::new(|k: usize| exists|i: int| 0 <= i < imports.len() && #[trigger] binds(imports[i], pubs, strings).contains(k))
}

/// Whether an import passes: a list names each function once, and only
/// functions the module offers.
pub open spec fn import_ok(import: Import, pubs: Seq<Seq<usize>>, strings: Seq<String>) -> bool {
    match import.kind {
        ImportKind::List(list) => {
            &&& list_names(list@).no_duplicates()
            &&& forall|i: int| 0 <= i < list@.len() ==> #[trigger] offered(import.module, pubs, strings, list@[i].0)
        },
        _ => true,
    }
}

/// The bindings that imports make at the outermost depth.
pub open spec fn imported_shape(names: Set<usize>) -> Shape {
    Map::new(|k: usize| names.contains(k), |k: usize| (0usize, false, true))
}

/// The bindings at the outermost depth of a file: what its imports bring
/// in, shadowed by its procedures, none of them assignable.
pub open spec fn file_shape(imports: Seq<Import>, functions: Seq<Procedure>, pubs: Seq<Seq<usize>>, strings: Seq<String>) -> Shape {
    with_procs(imported_shape(imports_bind(imports, pubs, strings)), functions)
}

/// The bindings `s` with the procedures `functions` bound at the outermost
/// depth.
pub open spec fn with_procs(s: Shape, functions: Seq<Procedure>) -> Shape {
    Map::new(
        |k: usize| s.contains_key(k) || fn_names(functions).contains(k),
        |k: usize| if fn_names(functions).contains(k) { (0usize, false, false) } else { s[k] },
    )
}

/// The bindings `s` with the parameters `ps` bound, assignable, at depth
/// `level`.
pub open spec fn with_params(s: Shape, ps: Seq<usize>, level: usize) -> Shape {
    Map::new(|k: usize| s.contains_key(k) || ps.contains(k), |k: usize| if ps.contains(k) { (level, true, false) } else { s[k] })
}

/// Whether a file passes against the modules' public procedures `pubs`:
/// its imports, distinct names for its procedures, and each procedure's
/// body, in a function scope one level below the file's bindings.
pub open spec fn file_ok(imports: Seq<Import>, functions: Seq<Procedure>, pubs: Seq<Seq<usize>>, strings: Seq<String>) -> bool {
    let s = file_shape(imports, functions, pubs, strings);
    &&& forall|i: int| 0 <= i < imports.len() ==> import_ok(#[trigger] imports[i], pubs, strings)
    &&& forall|i: int, j: int| 0 <= i < j < functions.len() ==>
        #[trigger] functions[i].identifier.data != #[trigger] functions[j].identifier.data
    &&& forall|i: int| 0 <= i < functions.len() ==> nodes_ok(
        (#[trigger] functions[i]).body@, with_params(s, param_names(functions[i].param_list), 1), 1, false, true, false)
}

/// Whether the reference check accepts a program: every loaded module (which
/// sees no procedure of its own through its imports), then the file's
/// imports and procedures, then its statements at the outermost depth.
pub open spec fn program_accepted(p: Program) -> bool {
    let pubs = pubs_of(p.modules@);
    &&& forall|m: int| 0 <= m < p.modules@.len() ==> file_ok(
        (#[trigger] p.modules@[m]).imports@, p.modules@[m].functions@, pubs.update(m, Seq::empty()), p.strings@)
    &&& file_ok(p.imports@, p.functions@, pubs, p.strings@)
    &&& nodes_ok(p.body@, file_shape(p.imports@, p.functions@, pubs, p.strings@), 0, false, false, false)
}

/// `exported` is `offered` on the modules' public procedures.
pub proof fn lemma_exported_offered(module: Module, modules: Seq<CustomModule>, strings: Seq<String>, name: usize)
    ensures
        exported(module, modules, strings, name) == offered(module, pubs_of(modules), strings, name),
{
    match module {
        Module::Custom(ind) => {
            if ind < modules.len() {
                assert(pubs_of(modules)[ind as int] == pub_fn_names(modules[ind as int].functions@));
            }
        },
        Module::Native(_) => {},
    }
}

/// `import_names` is `binds` on the modules' public procedures.
pub proof fn lemma_import_names_binds(import: Import, modules: Seq<CustomModule>, strings: Seq<String>)
    ensures
        crate::ast::analysis::imports::import_names(import, modules, strings) == binds(import, pubs_of(modules), strings),
{
    assert forall|k: usize| crate::ast::analysis::imports::import_names(import, modules, strings).contains(k)
        == binds(import, pubs_of(modules), strings).contains(k) by {
        lemma_exported_offered(import.module, modules, strings, k);
    }
    assert(crate::ast::analysis::imports::import_names(import, modules, strings) =~= binds(import, pubs_of(modules), strings));
}

/// `imports_names` is `imports_bind` on the modules' public procedures.
pub proof fn lemma_imports_names_bind(imports: Seq<Import>, modules: Seq<CustomModule>, strings: Seq<String>)
    ensures
        imports_names(imports, modules, strings) == imports_bind(imports, pubs_of(modules), strings),
{
    assert forall|i: int| 0 <= i < imports.len() implies
        crate::ast::analysis::imports::import_names(imports[i], modules, strings)
            == #[trigger] binds(imports[i], pubs_of(modules), strings) by {
        lemma_import_names_binds(imports[i], modules, strings);
    }
    let pubs = pubs_of(modules);
    assert forall|k: usize| imports_names(imports, modules, strings).contains(k) implies imports_bind(imports, pubs, strings).contains(k) by {
        let i = choose|i: int| 0 <= i < imports.len() && #[trigger] crate::ast::analysis::imports::import_names(imports[i], modules, strings).contains(k);
        assert(binds(imports[i], pubs, strings).contains(k));
    }
    assert forall|k: usize| imports_bind(imports, pubs, strings).contains(k) implies imports_names(imports, modules, strings).contains(k) by {
        let i = choose|i: int| 0 <= i < imports.len() && #[trigger] binds(imports[i], pubs, strings).contains(k);
        assert(crate::ast::analysis::imports::import_names(imports[i], modules, strings).contains(k));
    }
    assert(imports_names(imports, modules, strings) =~= imports_bind(imports, pubs, strings));
}

} // verus!
