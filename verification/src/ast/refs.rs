use crate::ast::node::{
    Assignable, AutoProp, AutoPropValue, BreakType, ConditionBodyPair, Declarator, Expression, GetProp, Import,
    ImportKind, Lambda, LambdaBody, Module, Node, ObjectValue, Parameters, Procedure, SetProp,
};
use vstd::prelude::*;

verus! {

/// The sizes of a program's tables: strings, lambdas, getters, setters and
/// modules, in this order.
pub type Sizes = (nat, nat, nat, nat, nat);

/// Whether every table of `a` is at most as long as that of `b`.
pub open spec fn sizes_le(a: Sizes, b: Sizes) -> bool {
    a.0 <= b.0 && a.1 <= b.1 && a.2 <= b.2 && a.3 <= b.3 && a.4 <= b.4
}

/// Whether every string and lambda an expression refers to is in tables of
/// sizes `z`.
pub open spec fn expr_refs(e: Expression, z: Sizes) -> bool
    decreases e,
{
    match e {
        Expression::Binary { left, right, .. } => expr_refs(*left, z) && expr_refs(*right, z),
        Expression::Assignment { left, right, .. } => target_refs(left, z) && expr_refs(*right, z),
        Expression::Unary { expr, .. } => expr_refs(*expr, z),
        Expression::String(i) => i < z.0,
        Expression::Identifier(l) => l.data < z.0,
        Expression::ArrayCreation(es) => exprs_refs(es@, z),
        Expression::Hash(h) => entries_refs(h@, z),
        Expression::MutableHash(h) => entries_refs(h@, z),
        Expression::FunctionCall { function, args } => expr_refs(*function, z) && exprs_refs(args@, z),
        Expression::Lambda(i) => i < z.1,
        Expression::IndexAccess { item, index } => expr_refs(*item, z) && expr_refs(*index, z),
        Expression::PropertyAccess { item, property } => expr_refs(*item, z) && property < z.0,
        _ => true,
    }
}

/// `expr_refs` for an assignment target.
pub open spec fn target_refs(a: Assignable, z: Sizes) -> bool
    decreases a,
{
    match a {
        Assignable::Identifier(l) => l.data < z.0,
        Assignable::IndexAccess { item, index } => expr_refs(*item, z) && expr_refs(*index, z),
        Assignable::PropertyAccess { item, property } => expr_refs(*item, z) && property < z.0,
    }
}

/// `expr_refs` for a list of expressions.
pub open spec fn exprs_refs(es: Seq<Expression>, z: Sizes) -> bool
    decreases es,
{
    if es.len() == 0 {
        true
    } else {
        exprs_refs(es.drop_last(), z) && expr_refs(es.last(), z)
    }
}

/// `expr_refs` for an auto-property: its variables, getter and setter.
pub open spec fn prop_refs(p: AutoProp, z: Sizes) -> bool {
    &&& p.get matches Some(v) ==> match v {
        AutoPropValue::String(l) => l.data < z.0,
        AutoPropValue::Lambda(i) => i < z.2,
    }
    &&& p.set matches Some(v) ==> match v {
        AutoPropValue::String(l) => l.data < z.0,
        AutoPropValue::Lambda(i) => i < z.3,
    }
}

/// `expr_refs` for the entries of a hash literal, keys included.
pub open spec fn entries_refs(h: Seq<(usize, ObjectValue)>, z: Sizes) -> bool
    decreases h,
{
    if h.len() == 0 {
        true
    } else {
        &&& entries_refs(h.drop_last(), z)
        &&& h.last().0 < z.0
        &&& match h.last().1 {
            ObjectValue::Expression(e) => expr_refs(e, z),
            ObjectValue::AutoProp(p) => prop_refs(p, z),
        }
    }
}

/// `expr_refs` for one entry of a hash literal, its key included.
pub open spec fn entry_refs(x: (usize, ObjectValue), z: Sizes) -> bool {
    &&& x.0 < z.0
    &&& match x.1 {
        ObjectValue::Expression(e) => expr_refs(e, z),
        ObjectValue::AutoProp(p) => prop_refs(p, z),
    }
}

/// `entries_refs` holds when it holds of every entry.
pub proof fn lemma_entries_refs_each(h: Seq<(usize, ObjectValue)>, z: Sizes)
    ensures
        entries_refs(h, z) <==> forall|i: int| 0 <= i < h.len() ==> entry_refs(#[trigger] h[i], z),
    decreases h.len(),
{
    if h.len() > 0 {
        let d = h.drop_last();
        lemma_entries_refs_each(d, z);
        assert(h.last() == h[h.len() - 1]);
        if entries_refs(h, z) {
            assert forall|i: int| 0 <= i < h.len() implies entry_refs(#[trigger] h[i], z) by {
                if i < h.len() - 1 {
                    assert(d[i] == h[i]);
                    assert(entry_refs(d[i], z));
                }
            }
        }
        if forall|i: int| 0 <= i < h.len() ==> entry_refs(#[trigger] h[i], z) {
            assert forall|i: int| 0 <= i < d.len() implies entry_refs(#[trigger] d[i], z) by {
                assert(d[i] == h[i]);
                assert(entry_refs(h[i], z));
            }
            assert(entry_refs(h[h.len() - 1], z));
        }
    }
}

/// `expr_refs` for the declarators of a declaration, names included.
pub open spec fn declarators_refs(ds: Seq<Declarator>, z: Sizes) -> bool
    decreases ds.len(),
{
    if ds.len() == 0 {
        true
    } else {
        declarators_refs(ds.drop_last(), z) && ds.last().identifier.data < z.0 && expr_refs(ds.last().value, z)
    }
}

/// `expr_refs` for a statement and the statements nested in it.
pub open spec fn node_refs(n: Node, z: Sizes) -> bool
    decreases n,
{
    match n {
        Node::Expression(e) => expr_refs(e, z),
        Node::Block(b) => nodes_refs(b@, z),
        Node::LogicChain { if_block, elseifs, else_block } => {
            &&& expr_refs(if_block.condition, z)
            &&& nodes_refs(if_block.block@, z)
            &&& pairs_refs(elseifs@, z)
            &&& match else_block {
                Some(b) => nodes_refs(b@, z),
                None => true,
            }
        },
        Node::While(p) => expr_refs(p.condition, z) && nodes_refs(p.block@, z),
        Node::For { declaration, condition, increment, body } => {
            &&& match declaration {
                Some(d) => declarators_refs(d.declarations@, z),
                None => true,
            }
            &&& match condition {
                Some(c) => expr_refs(c, z),
                None => true,
            }
            &&& match increment {
                Some(c) => expr_refs(c, z),
                None => true,
            }
            &&& nodes_refs(body@, z)
        },
        Node::Declaration(d) => declarators_refs(d.declarations@, z),
        Node::ControlFlow(f) => match f.kind {
            BreakType::Return(e) => expr_refs(e, z),
            _ => true,
        },
    }
}

/// `node_refs` for a block.
pub open spec fn nodes_refs(ns: Seq<Node>, z: Sizes) -> bool
    decreases ns,
{
    if ns.len() == 0 {
        true
    } else {
        nodes_refs(ns.drop_last(), z) && node_refs(ns.last(), z)
    }
}

/// `node_refs` for `else if` branches.
pub open spec fn pairs_refs(ps: Seq<ConditionBodyPair>, z: Sizes) -> bool
    decreases ps,
{
    if ps.len() == 0 {
        true
    } else {
        pairs_refs(ps.drop_last(), z) && expr_refs(ps.last().condition, z) && nodes_refs(ps.last().block@, z)
    }
}

/// Whether the names of a parameter list are in the string table.
pub open spec fn params_refs(p: Parameters, z: Sizes) -> bool {
    &&& forall|i: int| 0 <= i < p.params@.len() ==> (#[trigger] p.params@[i]).name < z.0
    &&& p.vardic matches Some(v) ==> v.name < z.0
}

/// `node_refs` for the body of a lambda, getter or setter.
pub open spec fn lambda_body_refs(b: LambdaBody, z: Sizes) -> bool {
    match b {
        LambdaBody::ImplicitReturn(e) => expr_refs(*e, z),
        LambdaBody::Block(b) => nodes_refs(b@, z),
    }
}

pub open spec fn lambda_refs(l: Lambda, z: Sizes) -> bool {
    params_refs(l.param_list, z) && lambda_body_refs(l.body, z)
}

pub open spec fn getter_refs(g: GetProp, z: Sizes) -> bool {
    lambda_body_refs(g.block, z)
}

pub open spec fn setter_refs(s: SetProp, z: Sizes) -> bool {
    s.param < z.0 && lambda_body_refs(s.block, z)
}

/// `node_refs` for a procedure, its name and parameters included.
pub open spec fn proc_refs(p: Procedure, z: Sizes) -> bool {
    p.identifier.data < z.0 && params_refs(p.param_list, z) && nodes_refs(p.body@, z)
}

/// Whether an import refers to a module and names that exist.
pub open spec fn import_refs(i: Import, z: Sizes) -> bool {
    &&& i.module matches Module::Custom(m) ==> m < z.4
    &&& match i.kind {
        ImportKind::All => true,
        ImportKind::ModuleObject(l) => l.data < z.0,
        ImportKind::List(list) => forall|k: int| 0 <= k < list@.len() ==> (#[trigger] list@[k]).0 < z.0,
    }
}

/// Growing the tables keeps an expression's references valid.
pub proof fn lemma_expr_refs_grow(e: Expression, z1: Sizes, z2: Sizes)
    requires
        expr_refs(e, z1),
        sizes_le(z1, z2),
    ensures
        expr_refs(e, z2),
    decreases e,
{
    match e {
        Expression::Binary { left, right, .. } => {
            lemma_expr_refs_grow(*left, z1, z2);
            lemma_expr_refs_grow(*right, z1, z2);
        },
        Expression::Assignment { left, right, .. } => {
            lemma_target_refs_grow(left, z1, z2);
            lemma_expr_refs_grow(*right, z1, z2);
        },
        Expression::Unary { expr, .. } => lemma_expr_refs_grow(*expr, z1, z2),
        Expression::ArrayCreation(es) => lemma_exprs_refs_grow(es@, z1, z2),
        Expression::Hash(h) => lemma_entries_refs_grow(h@, z1, z2),
        Expression::MutableHash(h) => lemma_entries_refs_grow(h@, z1, z2),
        Expression::FunctionCall { function, args } => {
            lemma_expr_refs_grow(*function, z1, z2);
            lemma_exprs_refs_grow(args@, z1, z2);
        },
        Expression::IndexAccess { item, index } => {
            lemma_expr_refs_grow(*item, z1, z2);
            lemma_expr_refs_grow(*index, z1, z2);
        },
        Expression::PropertyAccess { item, .. } => lemma_expr_refs_grow(*item, z1, z2),
        _ => {},
    }
}

pub proof fn lemma_target_refs_grow(a: Assignable, z1: Sizes, z2: Sizes)
    requires
        target_refs(a, z1),
        sizes_le(z1, z2),
    ensures
        target_refs(a, z2),
    decreases a,
{
    match a {
        Assignable::Identifier(_) => {},
        Assignable::IndexAccess { item, index } => {
            lemma_expr_refs_grow(*item, z1, z2);
            lemma_expr_refs_grow(*index, z1, z2);
        },
        Assignable::PropertyAccess { item, .. } => lemma_expr_refs_grow(*item, z1, z2),
    }
}

pub proof fn lemma_exprs_refs_grow(es: Seq<Expression>, z1: Sizes, z2: Sizes)
    requires
        exprs_refs(es, z1),
        sizes_le(z1, z2),
    ensures
        exprs_refs(es, z2),
    decreases es,
{
    if es.len() > 0 {
        lemma_exprs_refs_grow(es.drop_last(), z1, z2);
        lemma_expr_refs_grow(es.last(), z1, z2);
    }
}

pub proof fn lemma_entries_refs_grow(h: Seq<(usize, ObjectValue)>, z1: Sizes, z2: Sizes)
    requires
        entries_refs(h, z1),
        sizes_le(z1, z2),
    ensures
        entries_refs(h, z2),
    decreases h,
{
    if h.len() > 0 {
        lemma_entries_refs_grow(h.drop_last(), z1, z2);
        match h.last().1 {
            ObjectValue::Expression(e) => lemma_expr_refs_grow(e, z1, z2),
            ObjectValue::AutoProp(_) => {},
        }
    }
}

pub proof fn lemma_declarators_refs_grow(ds: Seq<Declarator>, z1: Sizes, z2: Sizes)
    requires
        declarators_refs(ds, z1),
        sizes_le(z1, z2),
    ensures
        declarators_refs(ds, z2),
    decreases ds.len(),
{
    if ds.len() > 0 {
        lemma_declarators_refs_grow(ds.drop_last(), z1, z2);
        lemma_expr_refs_grow(ds.last().value, z1, z2);
    }
}

/// Growing the tables keeps a statement's references valid.
pub proof fn lemma_node_refs_grow(n: Node, z1: Sizes, z2: Sizes)
    requires
        node_refs(n, z1),
        sizes_le(z1, z2),
    ensures
        node_refs(n, z2),
    decreases n,
{
    match n {
        Node::Expression(e) => lemma_expr_refs_grow(e, z1, z2),
        Node::Block(b) => lemma_nodes_refs_grow(b@, z1, z2),
        Node::LogicChain { if_block, elseifs, else_block } => {
            lemma_expr_refs_grow(if_block.condition, z1, z2);
            lemma_nodes_refs_grow(if_block.block@, z1, z2);
            lemma_pairs_refs_grow(elseifs@, z1, z2);
            match else_block {
                Some(b) => lemma_nodes_refs_grow(b@, z1, z2),
                None => {},
            }
        },
        Node::While(p) => {
            lemma_expr_refs_grow(p.condition, z1, z2);
            lemma_nodes_refs_grow(p.block@, z1, z2);
        },
        Node::For { declaration, condition, increment, body } => {
            match declaration {
                Some(d) => lemma_declarators_refs_grow(d.declarations@, z1, z2),
                None => {},
            }
            match condition {
                Some(c) => lemma_expr_refs_grow(c, z1, z2),
                None => {},
            }
            match increment {
                Some(c) => lemma_expr_refs_grow(c, z1, z2),
                None => {},
            }
            lemma_nodes_refs_grow(body@, z1, z2);
        },
        Node::Declaration(d) => lemma_declarators_refs_grow(d.declarations@, z1, z2),
        Node::ControlFlow(f) => match f.kind {
            BreakType::Return(e) => lemma_expr_refs_grow(e, z1, z2),
            _ => {},
        },
    }
}

pub proof fn lemma_nodes_refs_grow(ns: Seq<Node>, z1: Sizes, z2: Sizes)
    requires
        nodes_refs(ns, z1),
        sizes_le(z1, z2),
    ensures
        nodes_refs(ns, z2),
    decreases ns,
{
    if ns.len() > 0 {
        lemma_nodes_refs_grow(ns.drop_last(), z1, z2);
        lemma_node_refs_grow(ns.last(), z1, z2);
    }
}

pub proof fn lemma_pairs_refs_grow(ps: Seq<ConditionBodyPair>, z1: Sizes, z2: Sizes)
    requires
        pairs_refs(ps, z1),
        sizes_le(z1, z2),
    ensures
        pairs_refs(ps, z2),
    decreases ps,
{
    if ps.len() > 0 {
        lemma_pairs_refs_grow(ps.drop_last(), z1, z2);
        lemma_expr_refs_grow(ps.last().condition, z1, z2);
        lemma_nodes_refs_grow(ps.last().block@, z1, z2);
    }
}

/// Growing the tables keeps the references of a lambda body valid.
pub proof fn lemma_lambda_body_refs_grow(b: LambdaBody, z1: Sizes, z2: Sizes)
    requires
        lambda_body_refs(b, z1),
        sizes_le(z1, z2),
    ensures
        lambda_body_refs(b, z2),
{
    match b {
        LambdaBody::ImplicitReturn(e) => lemma_expr_refs_grow(*e, z1, z2),
        LambdaBody::Block(b) => lemma_nodes_refs_grow(b@, z1, z2),
    }
}

/// Growing the tables keeps the references of a procedure valid.
pub proof fn lemma_proc_refs_grow(p: Procedure, z1: Sizes, z2: Sizes)
    requires
        proc_refs(p, z1),
        sizes_le(z1, z2),
    ensures
        proc_refs(p, z2),
{
    lemma_nodes_refs_grow(p.body@, z1, z2);
}

} // verus!
