use crate::lex::tokens::NumberLit;
use crate::location::{Located, Location};
use crate::operators::{Assignment, Binary, Unary};
use vstd::prelude::*;

verus! {

/// A sequence of statements.
pub type Block = Vec<Node>;

#[derive(Debug)]
pub enum BreakType {
    Break,
    Continue,
    Return(Expression),
}

/// A `break`, `continue` or `return` statement.  `allocations` counts the
/// declarations that the jump leaves behind; it is zero until analysis.
#[derive(Debug)]
pub struct FlowBreak {
    pub allocations: usize,
    pub kind: BreakType,
    pub start: Location,
    pub end: Location,
}

impl FlowBreak {
    pub fn new_break(start: Location, end: Location) -> (f: Self)
        ensures
            f == (FlowBreak { kind: BreakType::Break, allocations: 0, start, end }),
    {
        Self { kind: BreakType::Break, allocations: 0, start, end }
    }

    pub fn new_continue(start: Location, end: Location) -> (f: Self)
        ensures
            f == (FlowBreak { kind: BreakType::Continue, allocations: 0, start, end }),
    {
        Self { kind: BreakType::Continue, allocations: 0, start, end }
    }

    pub fn new_return(expr: Expression, start: Location, end: Location) -> (f: Self)
        ensures
            f == (FlowBreak { kind: BreakType::Return(expr), allocations: 0, start, end }),
    {
        Self { kind: BreakType::Return(expr), allocations: 0, start, end }
    }
}

/// The left-hand side of an assignment.
#[derive(Debug)]
pub enum Assignable {
    Identifier(Located<usize>),
    IndexAccess { item: Box<Expression>, index: Box<Expression> },
    PropertyAccess { item: Box<Expression>, property: usize },
}

/// Expressions.  Names, strings and properties are indices into the
/// program's string table; lambdas are indices into its lambda table.
#[derive(Debug)]
#[allow(inconsistent_fields)]
pub enum Expression {
    Binary { op: Binary, left: Box<Expression>, right: Box<Expression> },
    Assignment { op: Assignment, left: Assignable, right: Box<Expression> },
    Unary { op: Unary, expr: Box<Expression> },
    Bool(bool),
    Number(NumberLit),
    String(usize),
    Identifier(Located<usize>),
    ArrayCreation(Vec<Expression>),
    Hash(Hash),
    MutableHash(Hash),
    FunctionCall { function: Box<Expression>, args: Vec<Expression> },
    Lambda(usize),
    IndexAccess { item: Box<Expression>, index: Box<Expression> },
    PropertyAccess { item: Box<Expression>, property: usize },
    Nil,
    This { start: Location, end: Location },
}

/// Only calls and assignments may stand as statements.
pub open spec fn spec_is_statement(e: Expression) -> bool {
    e is FunctionCall || e is Assignment
}

impl Expression {
    pub fn is_statement(&self) -> (b: bool)
        ensures
            b == spec_is_statement(*self),
    {
        match self {
            Expression::FunctionCall { .. } | Expression::Assignment { .. } => true,
            _ => false,
        }
    }
}

#[derive(Debug)]
pub struct Param {
    pub name: usize,
    pub captured: bool,
}

#[derive(Debug)]
pub struct Parameters {
    pub params: Vec<Param>,
    pub vardic: Option<Param>,
}

/// The names of all parameters, the spread parameter last.
pub open spec fn param_names(p: Parameters) -> Seq<usize> {
    let named = p.params@.map_values(|q: Param| q.name);
    match p.vardic {
        Some(v) => named.push(v.name),
        None => named,
    }
}

impl Parameters {
    pub fn new() -> (p: Self)
        ensures
            p.params@.len() == 0,
            p.vardic is None,
    {
        Parameters { params: Vec::new(), vardic: None }
    }

    /// Whether a parameter (the spread one included) has the given name.
    pub fn contains(&self, name: usize) -> (b: bool)
        ensures
            b == param_names(*self).contains(name),
    {
        let mut i: usize = 0;
        while i < self.params.len()
            invariant
                i <= self.params@.len(),
                forall|j: int| 0 <= j < i ==> self.params@[j].name != name,
            decreases self.params@.len() - i,
        {
            if self.params[i].name == name {
                assert(param_names(*self)[i as int] == name);
                return true;
            }
            i = i + 1;
        }
        match &self.vardic {
            Some(v) => {
                if v.name == name {
                    assert(param_names(*self).last() == name);
                    return true;
                }
            },
            None => {},
        }
        proof {
            if param_names(*self).contains(name) {
                let k = choose|k: int| 0 <= k < param_names(*self).len() && param_names(*self)[k] == name;
                if k < self.params@.len() {
                    assert(self.params@[k].name == name);
                }
            }
        }
        false
    }

    /// The names of all parameters, the spread parameter last.
    pub fn all_params(&self) -> (v: Vec<usize>)
        ensures
            v@ == param_names(*self),
    {
        let mut v: Vec<usize> = Vec::new();
        let mut i: usize = 0;
        while i < self.params.len()
            invariant
                i <= self.params@.len(),
                v@ == self.params@.take(i as int).map_values(|q: Param| q.name),
            decreases self.params@.len() - i,
        {
            v.push(self.params[i].name);
            i = i + 1;
            assert(v@ =~= self.params@.take(i as int).map_values(|q: Param| q.name));
        }
        assert(self.params@.take(i as int) =~= self.params@);
        if let Some(p) = &self.vardic {
            v.push(p.name);
        }
        v
    }

    /// Adds a named parameter unless one with that name is already there.
    pub fn try_add(&mut self, name: usize) -> (added: bool)
        ensures
            added == !old(self).params@.map_values(|q: Param| q.name).contains(name),
            added ==> final(self).params@ == old(self).params@.push(Param { name, captured: false }),
            !added ==> *final(self) == *old(self),
            final(self).vardic == old(self).vardic,
    {
        let mut i: usize = 0;
        while i < self.params.len()
            invariant
                i <= self.params@.len(),
                forall|j: int| 0 <= j < i ==> self.params@[j].name != name,
            decreases self.params@.len() - i,
        {
            if self.params[i].name == name {
                assert(self.params@.map_values(|q: Param| q.name)[i as int] == name);
                return false;
            }
            i = i + 1;
        }
        proof {
            let names = self.params@.map_values(|q: Param| q.name);
            if names.contains(name) {
                let k = choose|k: int| 0 <= k < names.len() && names[k] == name;
                assert(self.params@[k].name == name);
            }
        }
        self.params.push(Param { name, captured: false });
        true
    }
}

#[derive(Debug)]
pub enum LambdaBody {
    ImplicitReturn(Box<Expression>),
    Block(Block),
}

#[derive(Debug)]
pub struct Procedure {
    pub identifier: Located<usize>,
    pub param_list: Parameters,
    pub body: Block,
    pub public: bool,
}

#[derive(Debug)]
pub struct Lambda {
    pub param_list: Parameters,
    pub body: LambdaBody,
    /// Names of the outer variables the lambda uses, filled in by analysis.
    pub captured: Vec<usize>,
}

impl Lambda {
    pub fn new(body: LambdaBody, param_list: Parameters) -> (l: Self)
        ensures
            l.body == body,
            l.param_list == param_list,
            l.captured@.len() == 0,
    {
        Self { body, param_list, captured: Vec::new() }
    }
}

/// A setter of an auto-property.
#[derive(Debug)]
pub struct SetProp {
    pub param: usize,
    pub param_captured: bool,
    pub block: LambdaBody,
    pub capture: Vec<usize>,
}

impl SetProp {
    pub fn new(param: usize, block: LambdaBody) -> (s: Self)
        ensures
            s.param == param,
            s.block == block,
            !s.param_captured,
            s.capture@.len() == 0,
    {
        Self { param, param_captured: false, block, capture: Vec::new() }
    }
}

/// A getter of an auto-property.
#[derive(Debug)]
pub struct GetProp {
    pub block: LambdaBody,
    pub capture: Vec<usize>,
}

impl GetProp {
    pub fn new(block: LambdaBody) -> (g: Self)
        ensures
            g.block == block,
            g.capture@.len() == 0,
    {
        Self { block, capture: Vec::new() }
    }
}

/// One side of an auto-property: a variable it is bound to, or a getter or
/// setter in the program's tables.
#[derive(Debug)]
pub enum AutoPropValue {
    String(Located<usize>),
    Lambda(usize),
}

#[derive(Debug)]
pub struct AutoProp {
    pub get: Option<AutoPropValue>,
    pub set: Option<AutoPropValue>,
}

impl AutoProp {
    pub fn new() -> (a: Self)
        ensures
            a.get is None,
            a.set is None,
    {
        AutoProp { get: None, set: None }
    }
}

#[derive(Debug)]
pub enum ObjectValue {
    AutoProp(AutoProp),
    Expression(Expression),
}

/// A hash literal: keys are string-table indices, each at most once, in the
/// order in which they were first written.
pub type Hash = Vec<(usize, ObjectValue)>;

#[derive(Debug)]
pub struct ConditionBodyPair {
    pub condition: Expression,
    pub block: Block,
}

#[derive(Debug)]
pub struct Declarator {
    pub identifier: Located<usize>,
    pub value: Expression,
    pub captured: bool,
}

#[derive(Debug)]
pub struct Declaration {
    pub declarations: Vec<Declarator>,
    pub mutable: bool,
}

/// What an import brings in: everything, a module object, or a list of names
/// (each with the location of the list).
#[derive(Debug)]
pub enum ImportKind {
    All,
    ModuleObject(Located<usize>),
    List(Vec<(usize, Location, Location)>),
}

#[derive(Clone, Copy, Debug, PartialEq, Eq, Structural)]
pub enum NativePackage {
    Math,
    Fmt,
    Console,
    Array,
    Error,
    SyncIo,
    Str,
    Hash,
}

#[derive(Clone, Copy, Debug, PartialEq, Eq, Structural)]
pub enum Module {
    Custom(usize),
    Native(NativePackage),
}

#[derive(Debug)]
pub struct Import {
    pub module: Module,
    pub kind: ImportKind,
}

/// A module loaded from a file: its path as written in the import, its
/// imports and its functions.  `loaded` is false until its source was parsed.
#[derive(Debug)]
pub struct CustomModule {
    pub imports: Vec<Import>,
    pub functions: Vec<Procedure>,
    pub path: String,
    pub loaded: bool,
}

/// The names of the public procedures, in order.
pub open spec fn pub_fn_names(fs: Seq<Procedure>) -> Seq<usize>
    decreases fs.len(),
{
    if fs.len() == 0 {
        Seq::empty()
    } else if fs.last().public {
        pub_fn_names(fs.drop_last()).push(fs.last().identifier.data)
    } else {
        pub_fn_names(fs.drop_last())
    }
}

impl CustomModule {
    /// The index among the public functions of the first public function
    /// named `name`.
    pub fn get_function(&self, name: usize) -> (r: Option<usize>)
        ensures
            r is None <==> !pub_fn_names(self.functions@).contains(name),
            r matches Some(i) ==> {
                &&& i < pub_fn_names(self.functions@).len()
                &&& pub_fn_names(self.functions@)[i as int] == name
                &&& forall|j: int| 0 <= j < i ==> pub_fn_names(self.functions@)[j] != name
            },
    {
        let ghost fs = self.functions@;
        let mut pub_index: usize = 0;
        let mut i: usize = 0;
        while i < self.functions.len()
            invariant
                fs == self.functions@,
                i <= fs.len(),
                pub_index == pub_fn_names(fs.take(i as int)).len(),
                pub_index <= i,
                !pub_fn_names(fs.take(i as int)).contains(name),
            decreases fs.len() - i,
        {
            let ghost before = pub_fn_names(fs.take(i as int));
            proof {
                assert(fs.take(i + 1).drop_last() =~= fs.take(i as int));
                assert(fs.take(i + 1).last() == fs[i as int]);
            }
            if self.functions[i].public {
                assert(pub_fn_names(fs.take(i + 1)) == before.push(fs[i as int].identifier.data));
                if self.functions[i].identifier.data == name {
                    proof {
                        lemma_pub_names_prefix(fs, i + 1);
                        let all = pub_fn_names(fs);
                        let p1 = pub_fn_names(fs.take(i + 1));
                        assert(p1 == before.push(name));
                        assert(all.take(p1.len() as int) == p1);
                        assert(p1[pub_index as int] == name);
                        assert(all.take(p1.len() as int)[pub_index as int] == all[pub_index as int]);
                        assert forall|j: int| 0 <= j < pub_index implies all[j] != name by {
                            assert(all.take(p1.len() as int)[j] == all[j]);
                            assert(p1[j] == before[j]);
                        }
                    }
                    return Some(pub_index);
                }
                pub_index = pub_index + 1;
            }
            i = i + 1;
        }
        proof {
            assert(fs.take(i as int) =~= fs);
        }
        None
    }
}

/// The public names of the first `k` procedures come first among all.
pub proof fn lemma_pub_names_prefix(fs: Seq<Procedure>, k: int)
    requires
        0 <= k <= fs.len(),
    ensures
        pub_fn_names(fs.take(k)).len() <= pub_fn_names(fs).len(),
        pub_fn_names(fs).take(pub_fn_names(fs.take(k)).len() as int) == pub_fn_names(fs.take(k)),
    decreases fs.len(),
{
    if k == fs.len() {
        assert(fs.take(k) =~= fs);
        assert(pub_fn_names(fs).take(pub_fn_names(fs).len() as int) =~= pub_fn_names(fs));
    } else {
        lemma_pub_names_prefix(fs.drop_last(), k);
        assert(fs.drop_last().take(k) =~= fs.take(k));
        let p = pub_fn_names(fs.take(k));
        assert(pub_fn_names(fs).take(p.len() as int) =~= pub_fn_names(fs.drop_last()).take(p.len() as int));
    }
}

#[derive(Debug)]
pub enum Node {
    Expression(Expression),
    Block(Block),
    LogicChain { if_block: ConditionBodyPair, elseifs: Vec<ConditionBodyPair>, else_block: Option<Block> },
    While(ConditionBodyPair),
    For { declaration: Option<Declaration>, condition: Option<Expression>, increment: Option<Expression>, body: Block },
    Declaration(Declaration),
    ControlFlow(FlowBreak),
}

/// A parsed program: its tables and its top-level statements.
#[derive(Debug)]
pub struct Program {
    pub modules: Vec<CustomModule>,
    pub imports: Vec<Import>,
    pub functions: Vec<Procedure>,
    pub lambdas: Vec<Lambda>,
    pub getters: Vec<GetProp>,
    pub setters: Vec<SetProp>,
    pub strings: Vec<String>,
    pub body: Block,
}

} // verus!
