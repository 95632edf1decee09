use crate::ast::analysis::capture::{capture_ref, CaptureStack};
use crate::ast::native::NativeFunction;
use crate::ast::node::{param_names, Block, Declarator, Module, Node, Param, Parameters};
use std::collections::HashMap;
use vstd::prelude::*;
use vstd::std_specs::hash::group_hash_axioms;

verus! {

broadcast use group_hash_axioms;

/// Which walk of a lambda body is under way.
#[derive(Clone, Copy, Debug, PartialEq, Eq, Structural)]
pub enum LamPass {
    First,
    Second,
}

/// How a nested scope differs from its parent.
#[derive(Clone, Copy, Debug, PartialEq, Eq, Structural)]
pub enum SubState {
    /// A plain block: only the local declaration counter restarts.
    NoChange,
    /// A loop body: the loop declaration counter starts at zero.
    WithLoop,
    /// A function or lambda body: the function counter starts at zero and
    /// no loop is open any more.
    InFunc,
}

/// What an imported name stands for.
#[derive(Clone, Copy, Debug)]
pub enum ImportValue {
    Module(Module),
    Function { module: usize, index: usize },
    NativeFn(NativeFunction),
}

/// What a name is bound to.
#[derive(Clone, Copy, Debug)]
pub enum DefType {
    /// A `decl` variable or a parameter; `captured` once a lambda uses it.
    Mutable { captured: bool },
    /// An `im` variable.
    Constant,
    /// A procedure of this file (`module` is None) or of a loaded module.
    Function { module: Option<usize>, index: usize },
    Import(ImportValue),
}

/// A binding and the scope depth at which it was made.
#[derive(Clone, Copy, Debug)]
pub struct DefData {
    pub kind: DefType,
    pub level: usize,
}

impl DefData {
    pub open spec fn spec_is_mut(self) -> bool {
        self.kind is Mutable
    }

    pub open spec fn spec_is_captured(self) -> bool {
        self.kind matches DefType::Mutable { captured } && captured
    }

    pub open spec fn spec_is_import(self) -> bool {
        self.kind is Import
    }

    /// The binding marked as used by a lambda (only a variable can be).
    pub open spec fn with_capture(self) -> DefData {
        match self.kind {
            DefType::Mutable { .. } => DefData { kind: DefType::Mutable { captured: true }, level: self.level },
            _ => self,
        }
    }

    pub fn is_mut(&self) -> (b: bool)
        ensures
            b == self.spec_is_mut(),
    {
        match self.kind {
            DefType::Mutable { .. } => true,
            _ => false,
        }
    }

    pub fn is_captured(&self) -> (b: bool)
        ensures
            b == self.spec_is_captured(),
    {
        match self.kind {
            DefType::Mutable { captured } => captured,
            _ => false,
        }
    }

    pub fn is_import(&self) -> (b: bool)
        ensures
            b == self.spec_is_import(),
    {
        match self.kind {
            DefType::Import(_) => true,
            _ => false,
        }
    }

    pub fn try_capture(&mut self)
        ensures
            *final(self) == old(self).with_capture(),
    {
        if let DefType::Mutable { .. } = self.kind {
            self.kind = DefType::Mutable { captured: true };
        }
    }
}

/// One more, up to the largest `usize`.
pub open spec fn sat_inc(n: usize) -> usize {
    if n < usize::MAX {
        (n + 1) as usize
    } else {
        n
    }
}

/// The bindings with the one of `name`, if any, marked as captured.
pub open spec fn mark(m: Map<usize, DefData>, name: usize) -> Map<usize, DefData> {
    if m.contains_key(name) {
        m.insert(name, m[name].with_capture())
    } else {
        m
    }
}

/// Whether defining `name` at depth `level` would clash with a binding made
/// at that same depth (imports may be shadowed).
pub open spec fn clashes(m: Map<usize, DefData>, name: usize, level: usize) -> bool {
    m.contains_key(name) && m[name].level == level && !m[name].spec_is_import()
}

/// `parent` with each binding that `child` holds as captured marked captured.
pub open spec fn migrated(parent: Map<usize, DefData>, child: Map<usize, DefData>, keys: Set<usize>) -> Map<usize, DefData> {
    Map::new(
        |k: usize| parent.contains_key(k),
        |k: usize|
            if keys.contains(k) && child.contains_key(k) && child[k].spec_is_captured() {
                parent[k].with_capture()
            } else {
                parent[k]
            },
    )
}

/// Whether the `j`-th of `names`, released one after another from `m`, was
/// bound there as a captured variable: it must still be bound when its turn
/// comes, so only its first occurrence counts.
pub open spec fn released_captured(m: Map<usize, DefData>, names: Seq<usize>, j: int) -> bool {
    &&& m.contains_key(names[j])
    &&& m[names[j]].spec_is_captured()
    &&& !names.take(j).contains(names[j])
}

/// A name defined in a scope cannot be defined again in that same scope:
/// once `name` is bound at depth `level` to anything but an import, a
/// second definition at that depth clashes.  A binding of an outer scope
/// does not clash.
pub proof fn lemma_redefinition_in_same_scope(m: Map<usize, DefData>, name: usize, kind: DefType, level: usize, inner: usize)
    requires
        !(kind is Import),
        inner != level,
    ensures
        clashes(m.insert(name, DefData { kind, level }), name, level),
        !clashes(m.insert(name, DefData { kind, level }), name, inner),
{
}

/// Imported names may be hidden by a new definition in the same scope.
pub proof fn lemma_imports_can_be_shadowed(m: Map<usize, DefData>, name: usize, import: ImportValue, level: usize)
    ensures
        !clashes(m.insert(name, DefData { kind: DefType::Import(import), level }), name, level),
{
}

/// The names bound by a sequence of declarators, in order.
pub open spec fn declarator_names(ds: Seq<Declarator>) -> Seq<usize> {
    ds.map_values(|d: Declarator| d.identifier.data)
}

/// The names that a statement declares as variables that may be assigned
/// (a `decl` statement, or a `for` loop that begins with one).
pub open spec fn mut_decl_names(n: Node) -> Seq<usize> {
    match n {
        Node::Declaration(d) => if d.mutable { declarator_names(d.declarations@) } else { Seq::empty() },
        Node::For { declaration: Some(d), .. } => if d.mutable { declarator_names(d.declarations@) } else { Seq::empty() },
        _ => Seq::empty(),
    }
}

/// The names that the statements of a block declare as variables that may
/// be assigned, statement after statement.
pub open spec fn block_mut_names(b: Seq<Node>) -> Seq<usize>
    decreases b.len(),
{
    if b.len() == 0 {
        Seq::empty()
    } else {
        block_mut_names(b.drop_last()) + mut_decl_names(b.last())
    }
}

/// The names of the first `k` statements come first among those of the block.
pub proof fn lemma_block_names_prefix(b: Seq<Node>, k: int)
    requires
        0 <= k <= b.len(),
    ensures
        block_mut_names(b.take(k)).len() <= block_mut_names(b).len(),
        block_mut_names(b).take(block_mut_names(b.take(k)).len() as int) == block_mut_names(b.take(k)),
    decreases b.len(),
{
    if k == b.len() {
        assert(b.take(k) =~= b);
        assert(block_mut_names(b).take(block_mut_names(b).len() as int) =~= block_mut_names(b));
    } else {
        lemma_block_names_prefix(b.drop_last(), k);
        assert(b.drop_last().take(k) =~= b.take(k));
        let p = block_mut_names(b.take(k));
        assert(block_mut_names(b).take(p.len() as int) =~= block_mut_names(b.drop_last()).take(p.len() as int));
    }
}

/// `new` is `old` with the captured flags set as the releasing of `names`
/// from `m` decides, `old`'s first declarator being the `offset`-th name.
pub open spec fn released_decls(old: Seq<Declarator>, new: Seq<Declarator>, m: Map<usize, DefData>, names: Seq<usize>, offset: int) -> bool {
    &&& new.len() == old.len()
    &&& forall|j: int| 0 <= j < old.len() ==> #[trigger] new[j].identifier == old[j].identifier
    &&& forall|j: int| 0 <= j < old.len() ==> #[trigger] new[j].value == old[j].value
    &&& forall|j: int| 0 <= j < old.len() ==>
        #[trigger] new[j].captured == (old[j].captured || released_captured(m, names, offset + j))
}

/// `new` is the statement `old` after its variable declarators were
/// released (other statements stay as they are).
pub open spec fn released_node(old: Node, new: Node, m: Map<usize, DefData>, names: Seq<usize>, offset: int) -> bool {
    match old {
        Node::Declaration(d) => if d.mutable {
            new matches Node::Declaration(d2) && d2.mutable
                && released_decls(d.declarations@, d2.declarations@, m, names, offset)
        } else {
            new == old
        },
        Node::For { declaration: Some(d), condition, increment, body } => if d.mutable {
            new matches Node::For { declaration: Some(d2), condition: c2, increment: i2, body: b2 }
                && c2 == condition && i2 == increment && b2 == body && d2.mutable
                && released_decls(d.declarations@, d2.declarations@, m, names, offset)
        } else {
            new == old
        },
        _ => new == old,
    }
}

/// The analysis scope: every visible name with its binding, the depth, and
/// the counters of declarations made in the current block, loop and
/// function.
#[derive(Debug)]
pub struct Scope {
    pub scope: HashMap<usize, DefData>,
    pub level: usize,
    pub local: usize,
    pub loop_alloc: Option<usize>,
    pub fnc_alloc: Option<usize>,
    pub lam_pass: Option<LamPass>,
}

impl Scope {
    /// The bindings.
    pub open spec fn names(&self) -> Map<usize, DefData> {
        self.scope@
    }

    /// Everything but the bindings is as in `other`.
    pub open spec fn same_frame(&self, other: &Scope) -> bool {
        &&& self.level == other.level
        &&& self.local == other.local
        &&& self.loop_alloc == other.loop_alloc
        &&& self.fnc_alloc == other.fnc_alloc
        &&& self.lam_pass == other.lam_pass
    }

    pub fn new() -> (s: Self)
        ensures
            s.names() == Map::<usize, DefData>::empty(),
            s.level == 0,
            s.local == 0,
            s.loop_alloc is None,
            s.fnc_alloc is None,
            s.lam_pass is None,
    {
        Scope { scope: HashMap::new(), level: 0, local: 0, loop_alloc: None, fnc_alloc: None, lam_pass: None }
    }

    /// Whether the first walk of a lambda body (or no lambda) is under way.
    pub fn in_first_pass(&self) -> (b: bool)
        ensures
            b == (self.lam_pass is None || self.lam_pass == Some(LamPass::First)),
    {
        match self.lam_pass {
            None => true,
            Some(p) => p == LamPass::First,
        }
    }

    /// Whether the second walk of a lambda body (or no lambda) is under way.
    pub fn in_second_pass(&self) -> (b: bool)
        ensures
            b == (self.lam_pass is None || self.lam_pass == Some(LamPass::Second)),
    {
        match self.lam_pass {
            None => true,
            Some(p) => p == LamPass::Second,
        }
    }

    /// A nested scope: the same bindings one level deeper, with the counters
    /// that `state` restarts.
    pub fn child(&self, state: SubState) -> (s: Self)
        ensures
            s.names() == self.names(),
            s.level == sat_inc(self.level),
            s.local == 0,
            s.lam_pass == self.lam_pass,
            state == SubState::NoChange ==> s.loop_alloc == self.loop_alloc && s.fnc_alloc == self.fnc_alloc,
            state == SubState::WithLoop ==> s.loop_alloc == Some(0usize) && s.fnc_alloc == self.fnc_alloc,
            state == SubState::InFunc ==> s.loop_alloc is None && s.fnc_alloc == Some(0usize),
    {
        let level = if self.level < usize::MAX { self.level + 1 } else { self.level };
        let (loop_alloc, fnc_alloc) = match state {
            SubState::NoChange => (self.loop_alloc, self.fnc_alloc),
            SubState::WithLoop => (Some(0usize), self.fnc_alloc),
            SubState::InFunc => (None, Some(0usize)),
        };
        Scope { scope: self.scope.clone(), level, local: 0, loop_alloc, fnc_alloc, lam_pass: self.lam_pass }
    }

    /// Hands the captures made in a nested scope back to this one: every
    /// binding of this scope that the nested one holds as captured becomes
    /// captured here too.
    pub fn migrate(self, parent: &mut Scope)
        ensures
            final(parent).names() == migrated(old(parent).names(), self.names(), self.names().dom()),
            final(parent).same_frame(old(parent)),
    {
        let ghost child = self.scope@;
        let ghost start = parent.scope@;
        for k in it: self.scope.keys()
            invariant
                child == self.scope@,
                parent.same_frame(old(parent)),
                start == old(parent).names(),
                it.seq().no_duplicates(),
                it.seq().unref().to_set() == child.dom(),
                parent.scope@ == migrated(start, child, it.seq().take(it.index()).unref().to_set()),
                it.index() == it.seq().len() ==> parent.scope@ == migrated(start, child, child.dom()),
        {
            let key = *k;
            match self.scope.get(&key) {
                Some(d) => {
                    if d.is_captured() {
                        parent.try_capture(key);
                    }
                },
                None => {},
            }
            proof {
                assert(it.seq().take(it.index() + 1) =~= it.seq().take(it.index()).push(k));
                assert(it.seq().take(it.index() + 1).unref() =~= it.seq().take(it.index()).unref().push(key));
                it.seq().take(it.index()).unref().lemma_push_to_set_commute(key);
                assert(!it.seq().take(it.index()).unref().to_set().contains(key)) by {
                    if it.seq().take(it.index()).unref().to_set().contains(key) {
                        let j = choose|j: int| 0 <= j < it.index() && *it.seq()[j] == key;
                        assert(it.seq()[j] == it.seq()[it.index()]);
                    }
                }
                assert(parent.scope@ =~= migrated(start, child, it.seq().take(it.index() + 1).unref().to_set()));
                assert(it.seq().take(it.seq().len() as int) =~= it.seq());
            }
        }
    }

    /// Binds `name` at the current depth.  False when a binding of that name
    /// made at this depth, other than an import, was already there; the new
    /// binding replaces the old one either way.
    fn insert(&mut self, name: usize, kind: DefType) -> (ok: bool)
        ensures
            final(self).names() == old(self).names().insert(name, DefData { kind, level: old(self).level }),
            ok == !clashes(old(self).names(), name, old(self).level),
            final(self).same_frame(old(self)),
    {
        let level = self.level;
        match self.scope.insert(name, DefData { level, kind }) {
            Some(d) => !(d.level == level && !d.is_import()),
            None => true,
        }
    }

    /// Binds a variable that may be assigned.
    pub fn insert_mut(&mut self, name: usize) -> (ok: bool)
        ensures
            final(self).names() == old(self).names().insert(
                name,
                DefData { kind: DefType::Mutable { captured: false }, level: old(self).level },
            ),
            ok == !clashes(old(self).names(), name, old(self).level),
            final(self).same_frame(old(self)),
    {
        self.insert(name, DefType::Mutable { captured: false })
    }

    /// Binds a variable that may not be assigned.
    pub fn insert_const(&mut self, name: usize) -> (ok: bool)
        ensures
            final(self).names() == old(self).names().insert(name, DefData { kind: DefType::Constant, level: old(self).level }),
            ok == !clashes(old(self).names(), name, old(self).level),
            final(self).same_frame(old(self)),
    {
        self.insert(name, DefType::Constant)
    }

    /// Binds a procedure; only the outermost scope holds procedures.
    pub fn insert_fn(&mut self, name: usize, index: usize, module: Option<usize>) -> (ok: bool)
        ensures
            old(self).level == 0 ==> final(self).names() == old(self).names().insert(
                name,
                DefData { kind: DefType::Function { module, index }, level: 0 },
            ),
            old(self).level != 0 ==> final(self).names() == old(self).names(),
            ok == (old(self).level == 0 && !clashes(old(self).names(), name, 0)),
            final(self).same_frame(old(self)),
    {
        self.level == 0 && self.insert(name, DefType::Function { module, index })
    }

    /// Binds a module object.
    pub fn import_module(&mut self, name: usize, module: Module) -> (ok: bool)
        ensures
            final(self).names() == old(self).names().insert(
                name,
                DefData { kind: DefType::Import(ImportValue::Module(module)), level: old(self).level },
            ),
            ok == !clashes(old(self).names(), name, old(self).level),
            final(self).same_frame(old(self)),
    {
        self.insert(name, DefType::Import(ImportValue::Module(module)))
    }

    /// Binds a procedure of a loaded module.  Unlike a procedure of this
    /// file, it may be shadowed at the outermost depth.
    pub fn import_function(&mut self, name: usize, module: usize, index: usize) -> (ok: bool)
        ensures
            final(self).names() == old(self).names().insert(
                name,
                DefData { kind: DefType::Import(ImportValue::Function { module, index }), level: old(self).level },
            ),
            ok == !clashes(old(self).names(), name, old(self).level),
            final(self).same_frame(old(self)),
    {
        self.insert(name, DefType::Import(ImportValue::Function { module, index }))
    }

    /// Binds a native function, at the outermost depth only.
    pub fn native_function(&mut self, name: usize, fnc: NativeFunction)
        ensures
            old(self).level == 0 ==> final(self).names() == old(self).names().insert(
                name,
                DefData { kind: DefType::Import(ImportValue::NativeFn(fnc)), level: 0 },
            ),
            old(self).level != 0 ==> final(self).names() == old(self).names(),
            final(self).same_frame(old(self)),
    {
        if self.level == 0 {
            let _ = self.insert(name, DefType::Import(ImportValue::NativeFn(fnc)));
        }
    }

    /// Counts one declaration in the block, loop and function under way.
    pub fn new_decl(&mut self)
        ensures
            final(self).names() == old(self).names(),
            final(self).level == old(self).level,
            final(self).lam_pass == old(self).lam_pass,
            final(self).local == sat_inc(old(self).local),
            final(self).loop_alloc == (match old(self).loop_alloc {
                Some(n) => Some(sat_inc(n)),
                None => None,
            }),
            final(self).fnc_alloc == (match old(self).fnc_alloc {
                Some(n) => Some(sat_inc(n)),
                None => None,
            }),
    {
        self.local = if self.local < usize::MAX { self.local + 1 } else { self.local };
        self.loop_alloc = match self.loop_alloc {
            Some(n) => Some(if n < usize::MAX { n + 1 } else { n }),
            None => None,
        };
        self.fnc_alloc = match self.fnc_alloc {
            Some(n) => Some(if n < usize::MAX { n + 1 } else { n }),
            None => None,
        };
    }

    /// Binds a variable declared with `decl` (mutable) or `im`, counting the
    /// declaration.
    pub fn insert_var(&mut self, name: usize, is_mut: bool) -> (ok: bool)
        ensures
            is_mut ==> final(self).names() == old(self).names().insert(
                name,
                DefData { kind: DefType::Mutable { captured: false }, level: old(self).level },
            ),
            !is_mut ==> final(self).names() == old(self).names().insert(
                name,
                DefData { kind: DefType::Constant, level: old(self).level },
            ),
            ok == !clashes(old(self).names(), name, old(self).level),
            final(self).level == old(self).level,
            final(self).lam_pass == old(self).lam_pass,
            final(self).local == sat_inc(old(self).local),
            final(self).loop_alloc == (match old(self).loop_alloc {
                Some(n) => Some(sat_inc(n)),
                None => None,
            }),
            final(self).fnc_alloc == (match old(self).fnc_alloc {
                Some(n) => Some(sat_inc(n)),
                None => None,
            }),
    {
        self.new_decl();
        if is_mut {
            self.insert_mut(name)
        } else {
            self.insert_const(name)
        }
    }

    /// Whether `name` is bound to a variable that a lambda uses.
    pub fn is_captured(&self, name: usize) -> (b: bool)
        ensures
            b == (self.names().contains_key(name) && self.names()[name].spec_is_captured()),
    {
        match self.scope.get(&name) {
            Some(d) => d.is_captured(),
            None => false,
        }
    }

    /// Removes the binding of `name` if it is a captured variable, and says
    /// whether it was.
    pub fn take_captured(&mut self, name: usize) -> (b: bool)
        ensures
            b == (old(self).names().contains_key(name) && old(self).names()[name].spec_is_captured()),
            b ==> final(self).names() == old(self).names().remove(name),
            !b ==> final(self).names() == old(self).names(),
            final(self).same_frame(old(self)),
    {
        let captured = self.is_captured(name);
        if captured {
            let _ = self.scope.remove(&name);
        }
        captured
    }

    /// Marks the binding of `name`, if it is a variable, as captured.
    pub fn try_capture(&mut self, name: usize)
        ensures
            final(self).names() == mark(old(self).names(), name),
            final(self).same_frame(old(self)),
    {
        match self.scope.get(&name) {
            Some(d) => {
                let mut d2 = *d;
                d2.try_capture();
                let _ = self.scope.insert(name, d2);
            },
            None => {},
        }
    }

    /// Whether an auto-property may read `name`; if so, the variable is
    /// marked as captured.
    pub fn prop_check(&mut self, name: usize) -> (b: bool)
        ensures
            b == old(self).names().contains_key(name),
            final(self).names() == mark(old(self).names(), name),
            final(self).same_frame(old(self)),
    {
        let found = match self.scope.get(&name) {
            Some(_) => true,
            None => false,
        };
        self.try_capture(name);
        found
    }

    /// Whether an auto-property may assign `name` (a variable that may be
    /// assigned); if so, it is marked as captured.
    pub fn prop_check_mut(&mut self, name: usize) -> (b: bool)
        ensures
            b == (old(self).names().contains_key(name) && old(self).names()[name].spec_is_mut()),
            b ==> final(self).names() == mark(old(self).names(), name),
            !b ==> final(self).names() == old(self).names(),
            final(self).same_frame(old(self)),
    {
        let editable = match self.scope.get(&name) {
            Some(d) => d.is_mut(),
            None => false,
        };
        if editable {
            self.try_capture(name);
        }
        editable
    }

    /// Whether `name` is visible.  A use from inside lambdas that begin
    /// deeper than its definition is recorded in their captures, and the
    /// variable is then marked as captured.
    pub fn has(&mut self, name: usize, s: &mut CaptureStack) -> (b: bool)
        ensures
            b == old(self).names().contains_key(name),
            final(self).same_frame(old(self)),
            !b ==> final(self).names() == old(self).names() && final(s).view_seq() == old(s).view_seq(),
            b ==> {
                let lv = old(self).names()[name].level;
                let used = exists|i: int| 0 <= i < old(s).view_seq().len() && #[trigger] old(s).view_seq()[i].0 > lv;
                &&& final(s).view_seq().len() == old(s).view_seq().len()
                &&& forall|i: int| 0 <= i < old(s).view_seq().len() ==>
                    #[trigger] final(s).view_seq()[i] == capture_ref(old(s).view_seq()[i], name, lv)
                &&& used ==> final(self).names() == mark(old(self).names(), name)
                &&& !used ==> final(self).names() == old(self).names()
            },
    {
        match self.scope.get(&name) {
            Some(d) => {
                let lv = d.level;
                if s.check_ref(name, lv) {
                    self.try_capture(name);
                }
                true
            },
            None => false,
        }
    }

    /// Whether `name` is visible and may be assigned; captures are recorded
    /// as by `has`.
    pub fn has_editable(&mut self, name: usize, s: &mut CaptureStack) -> (b: bool)
        ensures
            b == (old(self).names().contains_key(name) && old(self).names()[name].spec_is_mut()),
            final(self).same_frame(old(self)),
            !b ==> final(self).names() == old(self).names() && final(s).view_seq() == old(s).view_seq(),
            b ==> {
                let lv = old(self).names()[name].level;
                let used = exists|i: int| 0 <= i < old(s).view_seq().len() && #[trigger] old(s).view_seq()[i].0 > lv;
                &&& final(s).view_seq().len() == old(s).view_seq().len()
                &&& forall|i: int| 0 <= i < old(s).view_seq().len() ==>
                    #[trigger] final(s).view_seq()[i] == capture_ref(old(s).view_seq()[i], name, lv)
                &&& used ==> final(self).names() == mark(old(self).names(), name)
                &&& !used ==> final(self).names() == old(self).names()
            },
    {
        match self.scope.get(&name) {
            Some(d) => {
                if d.is_mut() {
                    let lv = d.level;
                    if s.check_ref(name, lv) {
                        self.try_capture(name);
                    }
                    true
                } else {
                    false
                }
            },
            None => false,
        }
    }

    /// Binds every parameter as a variable that may be assigned.
    pub fn add_params(&mut self, params: &Parameters)
        ensures
            final(self).same_frame(old(self)),
            forall|k: usize| #[trigger] final(self).names().contains_key(k) <==>
                (old(self).names().contains_key(k) || param_names(*params).contains(k)),
            forall|k: usize| param_names(*params).contains(k) ==>
                #[trigger] final(self).names()[k] == (DefData { kind: DefType::Mutable { captured: false }, level: old(self).level }),
            forall|k: usize| old(self).names().contains_key(k) && !param_names(*params).contains(k) ==>
                #[trigger] final(self).names()[k] == old(self).names()[k],
    {
        let names = params.all_params();
        let mut i: usize = 0;
        while i < names.len()
            invariant
                i <= names@.len(),
                names@ == param_names(*params),
                self.same_frame(old(self)),
                forall|k: usize| #[trigger] self.names().contains_key(k) <==>
                    (old(self).names().contains_key(k) || names@.take(i as int).contains(k)),
                forall|k: usize| names@.take(i as int).contains(k) ==>
                    #[trigger] self.names()[k] == (DefData { kind: DefType::Mutable { captured: false }, level: old(self).level }),
                forall|k: usize| old(self).names().contains_key(k) && !names@.take(i as int).contains(k) ==>
                    #[trigger] self.names()[k] == old(self).names()[k],
            decreases names@.len() - i,
        {
            let _ = self.insert_mut(names[i]);
            proof {
                broadcast use vstd::seq_lib::group_seq_properties;
                assert(names@.take(i + 1) =~= names@.take(i as int).push(names@[i as int]));
            }
            i = i + 1;
        }
        proof {
            assert(names@.take(i as int) =~= names@);
        }
    }

    /// Releases one name after another; each that was bound to a captured
    /// variable sets its flag.
    fn release_params(&mut self, params: &mut Vec<Param>)
        ensures
            final(self).same_frame(old(self)),
            final(self).names() == old(self).names().remove_keys(old(params)@.map_values(|p: Param| p.name).to_set()),
            final(params)@.len() == old(params)@.len(),
            forall|j: int| 0 <= j < old(params)@.len() ==> {
                &&& #[trigger] final(params)@[j].name == old(params)@[j].name
                &&& final(params)@[j].captured == (old(params)@[j].captured
                    || released_captured(old(self).names(), old(params)@.map_values(|p: Param| p.name), j))
            },
    {
        let ghost m0 = self.scope@;
        let ghost ns = params@.map_values(|p: Param| p.name);
        let mut i: usize = 0;
        while i < params.len()
            invariant
                i <= params@.len(),
                params@.len() == old(params)@.len(),
                m0 == old(self).names(),
                ns == old(params)@.map_values(|p: Param| p.name),
                self.same_frame(old(self)),
                self.names() == m0.remove_keys(ns.take(i as int).to_set()),
                forall|j: int| i <= j < params@.len() ==> #[trigger] params@[j] == old(params)@[j],
                forall|j: int| 0 <= j < i ==> #[trigger] params@[j].name == old(params)@[j].name,
                forall|j: int| 0 <= j < i ==> #[trigger] params@[j].captured == (old(params)@[j].captured || released_captured(m0, ns, j)),
            decreases params@.len() - i,
        {
            let name = params[i].name;
            assert(ns[i as int] == name);
            let ghost before = params@;
            let ghost cur = self.scope@;
            let removed = self.scope.remove(&name);
            let was = match removed {
                Some(d) => d.is_captured(),
                None => false,
            };
            proof {
                assert(cur.contains_key(name) <==> (m0.contains_key(name) && !ns.take(i as int).contains(name)));
                if cur.contains_key(name) {
                    assert(cur[name] == m0[name]);
                }
                assert(was == released_captured(m0, ns, i as int));
            }
            assert(before[i as int] == old(params)@[i as int]);
            if was {
                params[i].captured = true;
            }
            assert(params@[i as int].name == old(params)@[i as int].name);
            assert(params@[i as int].captured == (old(params)@[i as int].captured || released_captured(m0, ns, i as int)));
            proof {
                assert(ns.take(i + 1) =~= ns.take(i as int).push(name));
                ns.take(i as int).lemma_push_to_set_commute(name);
                assert(self.scope@ =~= m0.remove_keys(ns.take(i + 1).to_set()));
                assert forall|j: int| 0 <= j < i implies {
                    &&& #[trigger] params@[j].name == old(params)@[j].name
                    &&& params@[j].captured == (old(params)@[j].captured || released_captured(m0, ns, j))
                } by {
                    assert(params@[j] == before[j]);
                }
                assert forall|j: int| i < j < params@.len() implies #[trigger] params@[j] == old(params)@[j] by {
                    assert(params@[j] == before[j]);
                }

            }
            i = i + 1;
        }
        proof {
            assert(ns.take(i as int) =~= ns);
        }
    }

    /// Releases the parameters of a finished function or lambda: each one
    /// that a lambda used is marked as captured.
    pub fn check_params(&mut self, params: &mut Parameters)
        ensures
            final(self).same_frame(old(self)),
            final(self).names() == old(self).names().remove_keys(param_names(*old(params)).to_set()),
            param_names(*final(params)) == param_names(*old(params)),
            final(params).params@.len() == old(params).params@.len(),
            final(params).vardic is Some == old(params).vardic is Some,
            forall|j: int| 0 <= j < old(params).params@.len() ==>
                #[trigger] final(params).params@[j].captured == (old(params).params@[j].captured
                    || released_captured(old(self).names(), param_names(*old(params)), j)),
            old(params).vardic matches Some(v) ==> final(params).vardic->0.captured == (v.captured
                || released_captured(old(self).names(), param_names(*old(params)), old(params).params@.len() as int)),
    {
        let ghost all = param_names(*params);
        let ghost named = params.params@.map_values(|p: Param| p.name);
        let ghost m0 = self.scope@;
        self.release_params(&mut params.params);
        proof {
            assert(all.len() >= named.len());
            assert forall|j: int| 0 <= j < named.len() implies all[j] == named[j] by {}
            assert forall|j: int| 0 <= j < named.len() implies
                released_captured(m0, named, j) == released_captured(m0, all, j) by {
                assert(all[j] == named[j]);
                assert(named.take(j) =~= all.take(j));
            }
            assert(params.params@.map_values(|p: Param| p.name) =~= named);
        }
        match &mut params.vardic {
            Some(v) => {
                let name = v.name;
                let ghost mid = self.scope@;
                let removed = self.scope.remove(&name);
                let was = match removed {
                    Some(d) => d.is_captured(),
                    None => false,
                };
                proof {
                    assert(all =~= named.push(name));
                    assert(all.take(named.len() as int) =~= named);
                    named.lemma_push_to_set_commute(name);
                    assert(was == released_captured(m0, all, named.len() as int));
                }
                if was {
                    v.captured = true;
                }
            },
            None => {
                assert(all =~= named);
            },
        }
        proof {
            assert(self.scope@ =~= m0.remove_keys(all.to_set()));
            assert(param_names(*params) =~= all);
            assert forall|j: int| 0 <= j < old(params).params@.len() implies
                #[trigger] params.params@[j].captured == (old(params).params@[j].captured
                    || released_captured(m0, all, j)) by {
                assert(released_captured(m0, named, j) == released_captured(m0, all, j));
            }
        }
    }
    /// Releases declared names one after another; each that was bound to a
    /// captured variable sets its declarator's flag.
    fn release_declarators(&mut self, ds: &mut Vec<Declarator>)
        ensures
            final(self).same_frame(old(self)),
            final(self).names() == old(self).names().remove_keys(declarator_names(old(ds)@).to_set()),
            released_decls(old(ds)@, final(ds)@, old(self).names(), declarator_names(old(ds)@), 0),
    {
        let ghost m0 = self.scope@;
        let ghost ns = declarator_names(ds@);
        let mut i: usize = 0;
        while i < ds.len()
            invariant
                i <= ds@.len(),
                ds@.len() == old(ds)@.len(),
                m0 == old(self).names(),
                ns == declarator_names(old(ds)@),
                self.same_frame(old(self)),
                self.names() == m0.remove_keys(ns.take(i as int).to_set()),
                forall|j: int| i <= j < ds@.len() ==> #[trigger] ds@[j] == old(ds)@[j],
                forall|j: int| 0 <= j < i ==> #[trigger] ds@[j].identifier == old(ds)@[j].identifier,
                forall|j: int| 0 <= j < i ==> #[trigger] ds@[j].value == old(ds)@[j].value,
                forall|j: int| 0 <= j < i ==> #[trigger] ds@[j].captured == (old(ds)@[j].captured || released_captured(m0, ns, 0 + j)),
            decreases ds@.len() - i,
        {
            let name = ds[i].identifier.data;
            assert(ns[i as int] == name);
            let ghost before = ds@;
            let ghost cur = self.scope@;
            let removed = self.scope.remove(&name);
            let was = match removed {
                Some(d) => d.is_captured(),
                None => false,
            };
            proof {
                assert(cur.contains_key(name) <==> (m0.contains_key(name) && !ns.take(i as int).contains(name)));
                if cur.contains_key(name) {
                    assert(cur[name] == m0[name]);
                }
                assert(was == released_captured(m0, ns, i as int));
            }
            assert(before[i as int] == old(ds)@[i as int]);
            if was {
                ds[i].captured = true;
            }
            proof {
                assert(ns.take(i + 1) =~= ns.take(i as int).push(name));
                ns.take(i as int).lemma_push_to_set_commute(name);
                assert(self.scope@ =~= m0.remove_keys(ns.take(i + 1).to_set()));
                assert forall|j: int| 0 <= j < ds@.len() && j != i implies #[trigger] ds@[j] == before[j] by {}
            }
            i = i + 1;
        }
        proof {
            assert(ns.take(i as int) =~= ns);
        }
    }

    /// Releases the variables that the statements of a finished block
    /// declared: each declarator whose variable a lambda used is marked as
    /// captured.
    pub fn check_decls(&mut self, block: &mut Block)
        ensures
            final(self).same_frame(old(self)),
            final(self).names() == old(self).names().remove_keys(block_mut_names(old(block)@).to_set()),
            final(block)@.len() == old(block)@.len(),
            forall|i: int| 0 <= i < old(block)@.len() ==> #[trigger] released_node(
                old(block)@[i],
                final(block)@[i],
                old(self).names(),
                block_mut_names(old(block)@),
                block_mut_names(old(block)@.take(i)).len() as int,
            ),
    {
        let ghost m0 = self.scope@;
        let ghost full = block_mut_names(block@);
        let mut i: usize = 0;
        while i < block.len()
            invariant
                i <= block@.len(),
                block@.len() == old(block)@.len(),
                m0 == old(self).names(),
                full == block_mut_names(old(block)@),
                self.same_frame(old(self)),
                self.names() == m0.remove_keys(block_mut_names(old(block)@.take(i as int)).to_set()),
                forall|j: int| i <= j < block@.len() ==> #[trigger] block@[j] == old(block)@[j],
                forall|j: int| 0 <= j < i ==> #[trigger] released_node(
                    old(block)@[j],
                    block@[j],
                    m0,
                    full,
                    block_mut_names(old(block)@.take(j)).len() as int,
                ),
            decreases block@.len() - i,
        {
            let ghost prefix = block_mut_names(old(block)@.take(i as int));
            let ghost here = mut_decl_names(old(block)@[i as int]);
            let ghost before = block@;
            let ghost cur = self.scope@;
            proof {
                assert(old(block)@.take(i + 1).drop_last() =~= old(block)@.take(i as int));
                assert(block_mut_names(old(block)@.take(i + 1)) == prefix + here);
                lemma_block_names_prefix(old(block)@, i + 1);
                assert(full.take((prefix.len() + here.len()) as int) == prefix + here);
            }
            match &mut block[i] {
                Node::Declaration(d) => {
                    if d.mutable {
                        self.release_declarators(&mut d.declarations);
                    }
                },
                Node::For { declaration: Some(d), .. } => {
                    if d.mutable {
                        self.release_declarators(&mut d.declarations);
                    }
                },
                _ => {},
            }
            proof {
                let offset = prefix.len() as int;
                assert forall|j: int| 0 <= j < here.len() implies
                    released_captured(cur, here, j) == released_captured(m0, full, offset + j) by {
                    broadcast use vstd::seq_lib::group_seq_properties;
                    let x = here[j];
                    assert(cur.contains_key(x) <==> (m0.contains_key(x) && !prefix.contains(x)));
                    assert(full[offset + j] == here[j]) by {
                        assert((prefix + here)[offset + j] == here[j]);
                    }
                    assert(full.take(offset + j) =~= prefix + here.take(j)) by {
                        assert((prefix + here).take(offset + j) =~= prefix + here.take(j));
                    }
                }
                vstd::seq_lib::seq_to_set_distributes_over_add(prefix, here);
                assert(self.scope@ =~= m0.remove_keys(block_mut_names(old(block)@.take(i + 1)).to_set()));
                assert(released_node(old(block)@[i as int], block@[i as int], m0, full, offset));
                assert forall|j: int| 0 <= j < block@.len() && j != i implies #[trigger] block@[j] == before[j] by {}
            }
            i = i + 1;
        }
        proof {
            assert(old(block)@.take(i as int) =~= old(block)@);
        }
    }
}

} // verus!
