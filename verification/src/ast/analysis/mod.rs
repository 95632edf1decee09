pub mod capture;
pub mod scope;
pub mod walk;
pub mod accepted;
pub mod imports;


use crate::ast::analysis::accepted::{file_ok, lemma_marks_same_shape, lemma_shape_names, program_accepted, program_plain, pubs_of};
use crate::ast::analysis::capture::CaptureStack;
use crate::ast::analysis::imports::{
    declare_functions, exported, fn_names, import_names, imports_names, walk_imports, walk_module, walk_procedures,
};
use crate::ast::analysis::scope::clashes;
use crate::ast::analysis::scope::Scope;
use crate::ast::analysis::walk::{is_loop_jump, is_return, lemma_nodes_bound_mono, mutable_names, nodes_names_bound, walk_ast};
use crate::ast::node::{param_names, pub_fn_names, CustomModule, GetProp, Import, Lambda, Procedure, Program, SetProp};
use crate::location::Location;
use vstd::prelude::*;

verus! {

/// What the reference check found wrong.
#[derive(Clone, Copy, Debug, PartialEq, Eq, Structural)]
pub enum WalkErrorType {
    /// An assignment to a name bound to something other than a `decl`
    /// variable or a parameter.
    ImmutableModification(usize),
    /// A name that no visible definition binds.
    IdentifierNotFound(usize),
    /// A second definition of a name in the same scope.
    InvalidRedefinition(usize),
    InvalidBreak,
    InvalidReturn,
    InvalidContinue,
    InvalidThis,
}

/// A reference error and where it was found.
#[derive(Debug)]
pub struct WalkError {
    pub start: Location,
    pub end: Location,
    pub kind: WalkErrorType,
}

pub type WalkResult = Result<(), WalkError>;

/// How many slots of a table hold an entry.
pub open spec fn count_some<T>(s: Seq<Option<T>>) -> nat
    decreases s.len(),
{
    if s.len() == 0 {
        0
    } else {
        count_some(s.drop_last()) + (if s.last() is Some { 1nat } else { 0nat })
    }
}

/// Two tables with entries in the same slots.
pub open spec fn same_some<T>(a: Seq<Option<T>>, b: Seq<Option<T>>) -> bool {
    &&& a.len() == b.len()
    &&& forall|i: int| 0 <= i < a.len() ==> (#[trigger] a[i] is Some <==> b[i] is Some)
}

pub proof fn lemma_count_same<T>(a: Seq<Option<T>>, b: Seq<Option<T>>)
    requires
        same_some(a, b),
    ensures
        count_some(a) == count_some(b),
    decreases a.len(),
{
    if a.len() > 0 {
        assert(a.last() is Some <==> b.last() is Some);
        lemma_count_same(a.drop_last(), b.drop_last());
    }
}

/// Emptying a slot that held an entry leaves one entry fewer.
pub proof fn lemma_count_take<T>(a: Seq<Option<T>>, i: int)
    requires
        0 <= i < a.len(),
        a[i] is Some,
    ensures
        count_some(a.update(i, None)) + 1 == count_some(a),
    decreases a.len(),
{
    if i == a.len() - 1 {
        assert(a.update(i, None).drop_last() =~= a.drop_last());
    } else {
        assert(a.update(i, None).drop_last() =~= a.drop_last().update(i, None));
        lemma_count_take(a.drop_last(), i);
    }
}

/// The program's lambdas, getters and setters while they are walked: the
/// one being walked is taken out of its slot and put back afterwards.
#[derive(Debug)]
pub struct Lams {
    pub lambdas: Vec<Option<Lambda>>,
    pub getters: Vec<Option<GetProp>>,
    pub setters: Vec<Option<SetProp>>,
}

impl Lams {
    /// How many entries are in their slots.
    pub open spec fn live(&self) -> nat {
        count_some(self.lambdas@) + count_some(self.getters@) + count_some(self.setters@)
    }

    /// The same slots hold entries as in `other`.
    pub open spec fn same_slots(&self, other: &Lams) -> bool {
        &&& same_some(self.lambdas@, other.lambdas@)
        &&& same_some(self.getters@, other.getters@)
        &&& same_some(self.setters@, other.setters@)
    }

    /// Every slot holds its entry.
    pub open spec fn full(&self) -> bool {
        &&& forall|i: int| 0 <= i < self.lambdas@.len() ==> #[trigger] self.lambdas@[i] is Some
        &&& forall|i: int| 0 <= i < self.getters@.len() ==> #[trigger] self.getters@[i] is Some
        &&& forall|i: int| 0 <= i < self.setters@.len() ==> #[trigger] self.setters@[i] is Some
    }
}

pub proof fn lemma_same_slots_live(a: &Lams, b: &Lams)
    requires
        a.same_slots(b),
    ensures
        a.live() == b.live(),
{
    lemma_count_same(a.lambdas@, b.lambdas@);
    lemma_count_same(a.getters@, b.getters@);
    lemma_count_same(a.setters@, b.setters@);
}

/// Puts each entry of a table in a slot of its own.
pub fn into_slots<T>(v: Vec<T>) -> (r: Vec<Option<T>>)
    ensures
        r@.len() == v@.len(),
        forall|j: int| 0 <= j < v@.len() ==> #[trigger] r@[j] == Some(v@[j]),
{
    let ghost v0 = v@;
    let mut v = v;
    let mut out: Vec<Option<T>> = Vec::new();
    while v.len() > 0
        invariant
            out@.len() + v@.len() == v0.len(),
            forall|j: int| 0 <= j < v@.len() ==> #[trigger] v@[j] == v0[j],
            forall|j: int| 0 <= j < out@.len() ==> #[trigger] out@[j] == Some(v0[v@.len() + j]),
        decreases v@.len(),
    {
        let x = v.pop().unwrap();
        out.insert(0, Some(x));
    }
    out
}

/// Takes every entry out of its slot; every slot must hold one.
pub fn from_slots<T>(v: Vec<Option<T>>) -> (r: Vec<T>)
    requires
        forall|j: int| 0 <= j < v@.len() ==> #[trigger] v@[j] is Some,
    ensures
        r@.len() == v@.len(),
        forall|j: int| 0 <= j < v@.len() ==> Some(#[trigger] r@[j]) == v@[j],
{
    let ghost v0 = v@;
    let mut v = v;
    let mut out: Vec<T> = Vec::new();
    while v.len() > 0
        invariant
            out@.len() + v@.len() == v0.len(),
            forall|j: int| 0 <= j < v0.len() ==> #[trigger] v0[j] is Some,
            forall|j: int| 0 <= j < v@.len() ==> #[trigger] v@[j] == v0[j],
            forall|j: int| 0 <= j < out@.len() ==> Some(#[trigger] out@[j]) == v0[v@.len() + j],
        decreases v@.len(),
    {
        let x = v.pop().unwrap();
        assert(x is Some);
        out.insert(0, x.unwrap());
    }
    out
}

/// Swaps the module at `i` with `m` and gives back the one that was there.
fn swap_module(modules: &mut Vec<CustomModule>, i: usize, m: CustomModule) -> (r: CustomModule)
    requires
        i < old(modules)@.len(),
    ensures
        r == old(modules)@[i as int],
        final(modules)@ == old(modules)@.update(i as int, m),
{
    let mut m = m;
    std::mem::swap(&mut modules[i], &mut m);
    m
}

/// The names a program's own imports and procedures bind at its top level.
pub open spec fn top_names(p: Program) -> Set<usize> {
    imports_names(p.imports@, p.modules@, p.strings@) + fn_names(p.functions@)
}

/// Procedures with the same names and visibility export the same names.
proof fn lemma_pub_names_same(a: Seq<Procedure>, b: Seq<Procedure>)
    requires
        a.len() == b.len(),
        forall|i: int| 0 <= i < a.len() ==> (#[trigger] a[i]).identifier == b[i].identifier && a[i].public == b[i].public,
    ensures
        pub_fn_names(a) == pub_fn_names(b),
    decreases a.len(),
{
    if a.len() > 0 {
        lemma_pub_names_same(a.drop_last(), b.drop_last());
        assert(a.last() == a[a.len() - 1]);
        assert(b.last() == b[b.len() - 1]);
    }
}

/// Imports against modules that export fewer names bind fewer names.
proof fn lemma_imports_names_sub(imports: Seq<Import>, m1: Seq<CustomModule>, m2: Seq<CustomModule>, strings: Seq<String>)
    requires
        m1.len() == m2.len(),
        forall|j: int, k: usize| 0 <= j < m1.len() && #[trigger] pub_fn_names(m1[j].functions@).contains(k)
            ==> pub_fn_names(m2[j].functions@).contains(k),
    ensures
        imports_names(imports, m1, strings).subset_of(imports_names(imports, m2, strings)),
{
    assert forall|x: usize| imports_names(imports, m1, strings).contains(x) implies imports_names(imports, m2, strings).contains(x) by {
        let i = choose|i: int| 0 <= i < imports.len() && #[trigger] import_names(imports[i], m1, strings).contains(x);
        match imports[i].kind {
            crate::ast::node::ImportKind::All => {
                assert(exported(imports[i].module, m1, strings, x));
                assert(exported(imports[i].module, m2, strings, x));
            },
            _ => {},
        }
        assert(import_names(imports[i], m2, strings).contains(x));
    }
}

/// Checks the references of a whole program: every loaded module, then the
/// file's imports, procedures and statements.  Every name must be visible
/// where it is used, only variables declared with `decl` (and parameters)
/// may be assigned, nothing may be defined twice in one scope, `break` and
/// `continue` need a loop, `return` a function and `this` a lambda.  On the
/// way, variables and parameters that lambdas use are marked as captured,
/// lambdas, getters and setters receive their captures, and jumps record how
/// many declarations they leave behind.
pub fn ref_check(program: &mut Program) -> (r: WalkResult)
    ensures
        final(program).lambdas@.len() == old(program).lambdas@.len(),
        final(program).getters@.len() == old(program).getters@.len(),
        final(program).setters@.len() == old(program).setters@.len(),
        final(program).modules@.len() == old(program).modules@.len(),
        final(program).functions@.len() == old(program).functions@.len(),
        r is Ok ==> forall|i: int, j: int| 0 <= i < j < old(program).functions@.len() ==>
            #[trigger] old(program).functions@[i].identifier.data != #[trigger] old(program).functions@[j].identifier.data,
        (exists|i: int| 0 <= i < old(program).body@.len() && is_loop_jump(#[trigger] old(program).body@[i])) ==> r is Err,
        (exists|i: int| 0 <= i < old(program).body@.len() && is_return(#[trigger] old(program).body@[i])) ==> r is Err,
        r is Ok ==> nodes_names_bound(old(program).body@, top_names(*old(program)), Set::empty()),
        r is Ok ==> forall|i: int| 0 <= i < old(program).functions@.len() ==> nodes_names_bound(
            (#[trigger] old(program).functions@[i]).body@,
            top_names(*old(program)) + param_names(old(program).functions@[i].param_list).to_set(),
            param_names(old(program).functions@[i].param_list).to_set(),
        ),
        r is Ok ==> forall|m: int, i: int| 0 <= m < old(program).modules@.len()
            && 0 <= i < old(program).modules@[m].functions@.len() ==> nodes_names_bound(
            (#[trigger] old(program).modules@[m].functions@[i]).body@,
            imports_names(old(program).modules@[m].imports@, old(program).modules@, old(program).strings@)
                + fn_names(old(program).modules@[m].functions@)
                + param_names(old(program).modules@[m].functions@[i].param_list).to_set(),
            param_names(old(program).modules@[m].functions@[i].param_list).to_set(),
        ),
        program_accepted(*old(program)) ==> r is Ok,
        program_plain(*old(program)) && r is Ok ==> program_accepted(*old(program)),
{
    let ghost p0 = *program;
    let mut lambdas: Vec<Lambda> = Vec::new();
    let mut getters: Vec<GetProp> = Vec::new();
    let mut setters: Vec<SetProp> = Vec::new();
    std::mem::swap(&mut lambdas, &mut program.lambdas);
    std::mem::swap(&mut getters, &mut program.getters);
    std::mem::swap(&mut setters, &mut program.setters);
    let mut lams = Lams { lambdas: into_slots(lambdas), getters: into_slots(getters), setters: into_slots(setters) };
    let ghost l0 = lams;
    let mut stack = CaptureStack::new();
    assert(program.body == p0.body);
    assert(program.functions == p0.functions);
    assert(program.modules == p0.modules);
    assert(program.imports == p0.imports);
    assert(program.strings == p0.strings);
    let res = check_program(program, &mut lams, &mut stack);
    proof {
        assert(lams.same_slots(&l0));
    }
    program.lambdas = from_slots(lams.lambdas);
    program.getters = from_slots(lams.getters);
    program.setters = from_slots(lams.setters);
    res
}

/// The walk of `ref_check`, with the tables already in their slots.
fn check_program(program: &mut Program, lams: &mut Lams, stack: &mut CaptureStack) -> (r: WalkResult)
    ensures
        final(lams).same_slots(old(lams)),
        final(program).modules@.len() == old(program).modules@.len(),
        final(program).functions@.len() == old(program).functions@.len(),
        final(program).lambdas == old(program).lambdas,
        final(program).getters == old(program).getters,
        final(program).setters == old(program).setters,
        r is Ok ==> forall|i: int, j: int| 0 <= i < j < old(program).functions@.len() ==>
            #[trigger] old(program).functions@[i].identifier.data != #[trigger] old(program).functions@[j].identifier.data,
        (exists|i: int| 0 <= i < old(program).body@.len() && is_loop_jump(#[trigger] old(program).body@[i])) ==> r is Err,
        (exists|i: int| 0 <= i < old(program).body@.len() && is_return(#[trigger] old(program).body@[i])) ==> r is Err,
        r is Ok ==> nodes_names_bound(old(program).body@, top_names(*old(program)), Set::empty()),
        r is Ok ==> forall|i: int| 0 <= i < old(program).functions@.len() ==> nodes_names_bound(
            (#[trigger] old(program).functions@[i]).body@,
            top_names(*old(program)) + param_names(old(program).functions@[i].param_list).to_set(),
            param_names(old(program).functions@[i].param_list).to_set(),
        ),
        r is Ok ==> forall|m: int, i: int| 0 <= m < old(program).modules@.len()
            && 0 <= i < old(program).modules@[m].functions@.len() ==> nodes_names_bound(
            (#[trigger] old(program).modules@[m].functions@[i]).body@,
            imports_names(old(program).modules@[m].imports@, old(program).modules@, old(program).strings@)
                + fn_names(old(program).modules@[m].functions@)
                + param_names(old(program).modules@[m].functions@[i].param_list).to_set(),
            param_names(old(program).modules@[m].functions@[i].param_list).to_set(),
        ),
        program_accepted(*old(program)) ==> r is Ok,
        program_plain(*old(program)) && r is Ok ==> program_accepted(*old(program)),
{
    let ghost p0 = *program;
    let mut m: usize = 0;
    while m < program.modules.len()
        invariant
            m <= program.modules@.len(),
            program.modules@.len() == p0.modules@.len(),
            program.functions == p0.functions,
            program.body == p0.body,
            program.imports == p0.imports,
            program.strings == p0.strings,
            program.lambdas == p0.lambdas,
            program.getters == p0.getters,
            program.setters == p0.setters,
            p0 == *old(program),
            lams.same_slots(old(lams)),
            forall|j: int| m <= j < program.modules@.len() ==> #[trigger] program.modules@[j] == p0.modules@[j],
            forall|j: int| 0 <= j < m ==> pub_fn_names(#[trigger] program.modules@[j].functions@) == pub_fn_names(p0.modules@[j].functions@),
            forall|j: int, i: int| 0 <= j < m && 0 <= i < p0.modules@[j].functions@.len() ==> nodes_names_bound(
                (#[trigger] p0.modules@[j].functions@[i]).body@,
                imports_names(p0.modules@[j].imports@, p0.modules@, p0.strings@)
                    + fn_names(p0.modules@[j].functions@)
                    + param_names(p0.modules@[j].functions@[i].param_list).to_set(),
                param_names(p0.modules@[j].functions@[i].param_list).to_set(),
            ),
            program_plain(p0) ==> forall|j: int| 0 <= j < m ==> file_ok((#[trigger] p0.modules@[j]).imports@,
                p0.modules@[j].functions@, pubs_of(p0.modules@).update(j, Seq::<usize>::empty()), p0.strings@),
        decreases program.modules@.len() - m,
    {
        let placeholder = CustomModule { imports: Vec::new(), functions: Vec::new(), path: String::new(), loaded: false };
        let mut module = swap_module(&mut program.modules, m, placeholder);
        let ghost mods = program.modules@;
        let ghost before = module;
        proof {
            assert(before == p0.modules@[m as int]);
            assert(pubs_of(mods) =~= pubs_of(p0.modules@).update(m as int, Seq::<usize>::empty())) by {
                assert forall|j: int| 0 <= j < mods.len() implies #[trigger] pubs_of(mods)[j]
                    == pubs_of(p0.modules@).update(m as int, Seq::<usize>::empty())[j] by {
                    if j == m as int {
                        assert(mods[j].functions@ =~= Seq::<Procedure>::empty());
                        assert(pub_fn_names(mods[j].functions@) =~= Seq::<usize>::empty());
                    }
                }
            }
        }
        let res = walk_module(&mut module, m, &program.modules, lams, stack, &program.strings);
        proof {
            lemma_pub_names_same(before.functions@, module.functions@);
        }
        let _ = swap_module(&mut program.modules, m, module);
        match res {
            Ok(()) => {},
            Err(e) => return Err(e),
        }
        proof {
            assert forall|j: int, k: usize| 0 <= j < mods.len() && #[trigger] pub_fn_names(mods[j].functions@).contains(k)
                implies pub_fn_names(p0.modules@[j].functions@).contains(k) by {
                if j == m as int {
                    assert(mods[j].functions@ =~= Seq::<Procedure>::empty());
                    assert(pub_fn_names(mods[j].functions@) =~= Seq::<usize>::empty());
                }
            }
            lemma_imports_names_sub(before.imports@, mods, p0.modules@, p0.strings@);
            assert forall|i: int| 0 <= i < before.functions@.len() implies nodes_names_bound(
                (#[trigger] before.functions@[i]).body@,
                imports_names(before.imports@, p0.modules@, p0.strings@) + fn_names(before.functions@)
                    + param_names(before.functions@[i].param_list).to_set(),
                param_names(before.functions@[i].param_list).to_set(),
            ) by {
                let ps = param_names(before.functions@[i].param_list).to_set();
                lemma_nodes_bound_mono(
                    before.functions@[i].body@,
                    imports_names(before.imports@, mods, p0.strings@) + fn_names(before.functions@) + ps,
                    ps,
                    imports_names(before.imports@, p0.modules@, p0.strings@) + fn_names(before.functions@) + ps,
                    ps,
                );
            }
            assert forall|j: int| 0 <= j < m + 1 implies pub_fn_names(#[trigger] program.modules@[j].functions@) == pub_fn_names(p0.modules@[j].functions@) by {
                if j == m as int {
                    assert(program.modules@[j] == module);
                }
            }
        }
        m = m + 1;
    }
    proof {
        assert forall|j: int, k: usize| 0 <= j < program.modules@.len() && #[trigger] pub_fn_names(program.modules@[j].functions@).contains(k)
            implies pub_fn_names(p0.modules@[j].functions@).contains(k) by {}
        lemma_imports_names_sub(p0.imports@, program.modules@, p0.modules@, p0.strings@);
    }
    let ghost allowed = imports_names(program.imports@, program.modules@, program.strings@);
    proof {
        assert(pubs_of(program.modules@) =~= pubs_of(p0.modules@));
    }
    let mut scope = Scope::new();
    match walk_imports(&program.imports, &program.modules, &program.strings, &mut scope) {
        Ok(()) => {},
        Err(e) => return Err(e),
    }
    proof {
        let fs = program.functions@;
        assert forall|i: int| 0 <= i < fs.len() implies !clashes(scope.names(), #[trigger] fs[i].identifier.data, 0) by {
            lemma_shape_names(scope.names(), fs[i].identifier.data, 0);
        }
    }
    match declare_functions(&program.functions, None, &mut scope) {
        Ok(()) => {},
        Err(e) => return Err(e),
    }
    let ghost top = scope.names();
    let ghost limit = allowed + fn_names(p0.functions@);
    proof {
        assert(limit.subset_of(top_names(p0)));
    }
    match walk_procedures(&mut program.functions, &mut scope, lams, stack) {
        Ok(()) => {},
        Err(e) => return Err(e),
    }
    proof {
        crate::ast::analysis::walk::lemma_marks_same_names(top, scope.names());
        lemma_marks_same_shape(top, scope.names());
        assert forall|i: int| 0 <= i < p0.functions@.len() implies nodes_names_bound(
            (#[trigger] p0.functions@[i]).body@,
            top_names(p0) + param_names(p0.functions@[i].param_list).to_set(),
            param_names(p0.functions@[i].param_list).to_set(),
        ) by {
            let ps = param_names(p0.functions@[i].param_list).to_set();
            lemma_nodes_bound_mono(p0.functions@[i].body@, top.dom() + ps, mutable_names(top) + ps, top_names(p0) + ps, ps);
        }
    }
    let ghost before_body = scope.names();
    match walk_ast(&mut program.body, &mut scope, lams, stack) {
        Ok(()) => {},
        Err(e) => return Err(e),
    }
    proof {
        lemma_nodes_bound_mono(p0.body@, before_body.dom(), mutable_names(before_body), top_names(p0), Set::empty());
    }
    scope.check_decls(&mut program.body);
    Ok(())
}

} // verus!
