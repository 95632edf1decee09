use crate::ast::node::{Block, CustomModule, GetProp, Import, Lambda, Procedure, Program, SetProp};
use crate::ast::refs::{
    getter_refs, import_refs, lambda_body_refs, lambda_refs, lemma_lambda_body_refs_grow, lemma_proc_refs_grow, proc_refs,
    setter_refs, sizes_le, Sizes,
};
use vstd::prelude::*;

verus! {

/// Whether a module's imports and procedures refer only to entries of
/// tables of sizes `z`.
pub open spec fn module_refs(m: CustomModule, z: Sizes) -> bool {
    &&& forall|i: int| 0 <= i < m.imports@.len() ==> import_refs(#[trigger] m.imports@[i], z)
    &&& forall|i: int| 0 <= i < m.functions@.len() ==> proc_refs(#[trigger] m.functions@[i], z)
}

/// Whether every entry of a program's tables refers only to entries of
/// tables of sizes `z`.
pub open spec fn tables_closed(
    lambdas: Seq<Lambda>,
    getters: Seq<GetProp>,
    setters: Seq<SetProp>,
    functions: Seq<Procedure>,
    imports: Seq<Import>,
    modules: Seq<CustomModule>,
    z: Sizes,
) -> bool {
    &&& forall|i: int| 0 <= i < lambdas.len() ==> lambda_refs(#[trigger] lambdas[i], z)
    &&& forall|i: int| 0 <= i < getters.len() ==> getter_refs(#[trigger] getters[i], z)
    &&& forall|i: int| 0 <= i < setters.len() ==> setter_refs(#[trigger] setters[i], z)
    &&& forall|i: int| 0 <= i < functions.len() ==> proc_refs(#[trigger] functions[i], z)
    &&& forall|i: int| 0 <= i < imports.len() ==> import_refs(#[trigger] imports[i], z)
    &&& forall|i: int| 0 <= i < modules.len() ==> module_refs(#[trigger] modules[i], z)
}

/// Growing the tables keeps their entries' references valid.
pub proof fn lemma_tables_grow(
    lambdas: Seq<Lambda>,
    getters: Seq<GetProp>,
    setters: Seq<SetProp>,
    functions: Seq<Procedure>,
    imports: Seq<Import>,
    modules: Seq<CustomModule>,
    z1: Sizes,
    z2: Sizes,
)
    requires
        tables_closed(lambdas, getters, setters, functions, imports, modules, z1),
        sizes_le(z1, z2),
    ensures
        tables_closed(lambdas, getters, setters, functions, imports, modules, z2),
{
    assert forall|i: int| 0 <= i < lambdas.len() implies lambda_refs(#[trigger] lambdas[i], z2) by {
        lemma_lambda_body_refs_grow(lambdas[i].body, z1, z2);
    }
    assert forall|i: int| 0 <= i < getters.len() implies getter_refs(#[trigger] getters[i], z2) by {
        lemma_lambda_body_refs_grow(getters[i].block, z1, z2);
    }
    assert forall|i: int| 0 <= i < setters.len() implies setter_refs(#[trigger] setters[i], z2) by {
        lemma_lambda_body_refs_grow(setters[i].block, z1, z2);
    }
    assert forall|i: int| 0 <= i < functions.len() implies proc_refs(#[trigger] functions[i], z2) by {
        lemma_proc_refs_grow(functions[i], z1, z2);
    }
    assert forall|i: int| 0 <= i < modules.len() implies module_refs(#[trigger] modules[i], z2) by {
        assert forall|k: int| 0 <= k < modules[i].functions@.len() implies proc_refs(#[trigger] modules[i].functions@[k], z2) by {
            lemma_proc_refs_grow(modules[i].functions@[k], z1, z2);
        }
    }
}

/// The tables that parsing fills: interned strings, modules, imports,
/// functions, lambdas, getters and setters.
pub struct Store {
    pub strings: Vec<String>,
    pub modules: Vec<CustomModule>,
    pub imports: Vec<Import>,
    pub functions: Vec<Procedure>,
    pub lambdas: Vec<Lambda>,
    pub getters: Vec<GetProp>,
    pub setters: Vec<SetProp>,
}

/// The interned strings as character sequences.
pub open spec fn string_table(strings: Seq<String>) -> Seq<Seq<char>> {
    strings.map_values(|s: String| s@)
}

/// No string is interned twice.
pub open spec fn distinct_strings(t: Seq<Seq<char>>) -> bool {
    forall|i: int, j: int| 0 <= i < j < t.len() ==> t[i] != t[j]
}

/// Each text has one index in a well-formed table: interning a text that
/// is already there gives back the index it got the first time.
pub proof fn lemma_interned_index_unique(s: &Store, i: int, j: int)
    requires
        s.wf(),
        0 <= i < s.strs().len(),
        0 <= j < s.strs().len(),
        s.strs()[i] == s.strs()[j],
    ensures
        i == j,
{
    if i < j {
        assert(s.strs()[i] != s.strs()[j]);
    } else if j < i {
        assert(s.strs()[j] != s.strs()[i]);
    }
}

impl Store {
    pub open spec fn strs(&self) -> Seq<Seq<char>> {
        string_table(self.strings@)
    }

    /// The sizes of the tables.
    pub open spec fn sizes(&self) -> Sizes {
        (self.strs().len(), self.lambdas@.len(), self.getters@.len(), self.setters@.len(), self.modules@.len())
    }

    /// Every entry of the tables refers only to entries that exist.
    pub open spec fn closed(&self) -> bool {
        tables_closed(self.lambdas@, self.getters@, self.setters@, self.functions@, self.imports@, self.modules@, self.sizes())
    }

    /// Strings are interned once and the tables refer only to themselves.
    pub open spec fn wf(&self) -> bool {
        distinct_strings(self.strs()) && self.closed()
    }

    /// `self` holds everything `old` held, in the same places.
    pub open spec fn extends(&self, old: &Store) -> bool {
        &&& old.strs().len() <= self.strs().len()
        &&& forall|i: int| 0 <= i < old.strs().len() ==> #[trigger] self.strs()[i] == old.strs()[i]
        &&& old.lambdas@.len() <= self.lambdas@.len()
        &&& old.getters@.len() <= self.getters@.len()
        &&& old.setters@.len() <= self.setters@.len()
        &&& old.modules@.len() <= self.modules@.len()
    }

    pub fn new() -> (s: Self)
        ensures
            s.wf(),
            s.strings@.len() == 0,
            s.modules@.len() == 0,
            s.imports@.len() == 0,
            s.functions@.len() == 0,
            s.lambdas@.len() == 0,
            s.getters@.len() == 0,
            s.setters@.len() == 0,
    {
        Self {
            strings: Vec::new(),
            modules: Vec::new(),
            imports: Vec::new(),
            functions: Vec::new(),
            lambdas: Vec::new(),
            getters: Vec::new(),
            setters: Vec::new(),
        }
    }

    /// The index of `s` in the string table, adding it at the end when absent.
    pub fn ins_str(&mut self, s: String) -> (ind: usize)
        requires
            old(self).wf(),
        ensures
            final(self).wf(),
            final(self).extends(old(self)),
            ind < final(self).strs().len(),
            final(self).strs()[ind as int] == s@,
            old(self).strs().contains(s@) ==> final(self).strs() == old(self).strs(),
            !old(self).strs().contains(s@) ==> final(self).strs() == old(self).strs().push(s@),
            final(self).lambdas == old(self).lambdas,
            final(self).getters == old(self).getters,
            final(self).setters == old(self).setters,
            final(self).modules == old(self).modules,
            final(self).functions == old(self).functions,
            final(self).imports == old(self).imports,
    {
        match self.get_str(&s) {
            Some(i) => i,
            None => {
                let ind = self.strings.len();
                let ghost before = self.strs();
                self.strings.push(s);
                assert(self.strs() =~= before.push(s@));
                proof {
                    lemma_tables_grow(self.lambdas@, self.getters@, self.setters@, self.functions@, self.imports@,
                        self.modules@, old(self).sizes(), self.sizes());
                }
                ind
            },
        }
    }

    /// The index of `s` in the string table, if it is there.
    pub fn get_str(&self, key: &String) -> (r: Option<usize>)
        requires
            self.wf(),
        ensures
            r matches Some(i) ==> i < self.strs().len() && self.strs()[i as int] == key@,
            r is None ==> !self.strs().contains(key@),
    {
        let mut i: usize = 0;
        while i < self.strings.len()
            invariant
                i <= self.strings@.len(),
                forall|j: int| 0 <= j < i ==> self.strs()[j] != key@,
            decreases self.strings@.len() - i,
        {
            if crate::text::string_eq(&self.strings[i], key) {
                return Some(i);
            }
            i = i + 1;
        }
        None
    }

    pub fn add_import(&mut self, import: Import) -> (ind: usize)
        ensures
            final(self).extends(old(self)),
            old(self).wf() && import_refs(import, old(self).sizes()) ==> final(self).wf(),
            ind == old(self).imports@.len(),
            final(self).imports@ == old(self).imports@.push(import),
            final(self).strings == old(self).strings,
            final(self).lambdas == old(self).lambdas,
            final(self).getters == old(self).getters,
            final(self).setters == old(self).setters,
            final(self).modules == old(self).modules,
            final(self).functions == old(self).functions,
    {
        let ind = self.imports.len();
        self.imports.push(import);
        proof {
            if old(self).wf() && import_refs(self.imports@.last(), old(self).sizes()) {
                lemma_tables_grow(old(self).lambdas@, old(self).getters@, old(self).setters@, old(self).functions@,
                    old(self).imports@, old(self).modules@, old(self).sizes(), self.sizes());
                
                assert forall|i: int| 0 <= i < self.imports@.len() implies import_refs(#[trigger] self.imports@[i], self.sizes()) by {
                    if i < old(self).imports@.len() {
                        assert(self.imports@[i] == old(self).imports@[i]);
                    }
                }
            }
        }
        ind
    }

    pub fn add_fn(&mut self, proc: Procedure) -> (ind: usize)
        ensures
            final(self).extends(old(self)),
            old(self).wf() && proc_refs(proc, old(self).sizes()) ==> final(self).wf(),
            ind == old(self).functions@.len(),
            final(self).functions@ == old(self).functions@.push(proc),
            final(self).strings == old(self).strings,
            final(self).lambdas == old(self).lambdas,
            final(self).getters == old(self).getters,
            final(self).setters == old(self).setters,
            final(self).modules == old(self).modules,
            final(self).imports == old(self).imports,
    {
        let ind = self.functions.len();
        self.functions.push(proc);
        proof {
            if old(self).wf() && proc_refs(self.functions@.last(), old(self).sizes()) {
                lemma_tables_grow(old(self).lambdas@, old(self).getters@, old(self).setters@, old(self).functions@,
                    old(self).imports@, old(self).modules@, old(self).sizes(), self.sizes());
                lemma_proc_refs_grow(self.functions@.last(), old(self).sizes(), self.sizes());
                assert forall|i: int| 0 <= i < self.functions@.len() implies proc_refs(#[trigger] self.functions@[i], self.sizes()) by {
                    if i < old(self).functions@.len() {
                        assert(self.functions@[i] == old(self).functions@[i]);
                    }
                }
            }
        }
        ind
    }

    pub fn add_lam(&mut self, lam: Lambda) -> (ind: usize)
        ensures
            final(self).extends(old(self)),
            old(self).wf() && lambda_refs(lam, old(self).sizes()) ==> final(self).wf(),
            ind == old(self).lambdas@.len(),
            final(self).lambdas@ == old(self).lambdas@.push(lam),
            final(self).strings == old(self).strings,
            final(self).functions == old(self).functions,
            final(self).getters == old(self).getters,
            final(self).setters == old(self).setters,
            final(self).modules == old(self).modules,
            final(self).imports == old(self).imports,
    {
        let ind = self.lambdas.len();
        self.lambdas.push(lam);
        proof {
            if old(self).wf() && lambda_refs(self.lambdas@.last(), old(self).sizes()) {
                lemma_tables_grow(old(self).lambdas@, old(self).getters@, old(self).setters@, old(self).functions@,
                    old(self).imports@, old(self).modules@, old(self).sizes(), self.sizes());
                lemma_lambda_body_refs_grow(self.lambdas@.last().body, old(self).sizes(), self.sizes());
                assert forall|i: int| 0 <= i < self.lambdas@.len() implies lambda_refs(#[trigger] self.lambdas@[i], self.sizes()) by {
                    if i < old(self).lambdas@.len() {
                        assert(self.lambdas@[i] == old(self).lambdas@[i]);
                    }
                }
            }
        }
        ind
    }

    pub fn add_getter(&mut self, getter: GetProp) -> (ind: usize)
        ensures
            final(self).extends(old(self)),
            old(self).wf() && getter_refs(getter, old(self).sizes()) ==> final(self).wf(),
            ind == old(self).getters@.len(),
            final(self).getters@ == old(self).getters@.push(getter),
            final(self).strings == old(self).strings,
            final(self).functions == old(self).functions,
            final(self).lambdas == old(self).lambdas,
            final(self).setters == old(self).setters,
            final(self).modules == old(self).modules,
            final(self).imports == old(self).imports,
    {
        let ind = self.getters.len();
        self.getters.push(getter);
        proof {
            if old(self).wf() && getter_refs(self.getters@.last(), old(self).sizes()) {
                lemma_tables_grow(old(self).lambdas@, old(self).getters@, old(self).setters@, old(self).functions@,
                    old(self).imports@, old(self).modules@, old(self).sizes(), self.sizes());
                lemma_lambda_body_refs_grow(self.getters@.last().block, old(self).sizes(), self.sizes());
                assert forall|i: int| 0 <= i < self.getters@.len() implies getter_refs(#[trigger] self.getters@[i], self.sizes()) by {
                    if i < old(self).getters@.len() {
                        assert(self.getters@[i] == old(self).getters@[i]);
                    }
                }
            }
        }
        ind
    }

    pub fn add_setter(&mut self, setter: SetProp) -> (ind: usize)
        ensures
            final(self).extends(old(self)),
            old(self).wf() && setter_refs(setter, old(self).sizes()) ==> final(self).wf(),
            ind == old(self).setters@.len(),
            final(self).setters@ == old(self).setters@.push(setter),
            final(self).strings == old(self).strings,
            final(self).functions == old(self).functions,
            final(self).lambdas == old(self).lambdas,
            final(self).getters == old(self).getters,
            final(self).modules == old(self).modules,
            final(self).imports == old(self).imports,
    {
        let ind = self.setters.len();
        self.setters.push(setter);
        proof {
            if old(self).wf() && setter_refs(self.setters@.last(), old(self).sizes()) {
                lemma_tables_grow(old(self).lambdas@, old(self).getters@, old(self).setters@, old(self).functions@,
                    old(self).imports@, old(self).modules@, old(self).sizes(), self.sizes());
                lemma_lambda_body_refs_grow(self.setters@.last().block, old(self).sizes(), self.sizes());
                assert forall|i: int| 0 <= i < self.setters@.len() implies setter_refs(#[trigger] self.setters@[i], self.sizes()) by {
                    if i < old(self).setters@.len() {
                        assert(self.setters@[i] == old(self).setters@[i]);
                    }
                }
            }
        }
        ind
    }

    /// The index of the module imported as `path`, registering a module not
    /// loaded yet when no import named that path before.
    pub fn module_for_path(&mut self, path: String) -> (ind: usize)
        ensures
            final(self).extends(old(self)),
            old(self).wf() ==> final(self).wf(),
            ind < final(self).modules@.len(),
            final(self).modules@[ind as int].path@ == path@,
            final(self).modules@.len() == old(self).modules@.len() || final(self).modules@.len() == old(self).modules@.len() + 1,
            forall|i: int| 0 <= i < old(self).modules@.len() ==> final(self).modules@[i] == old(self).modules@[i],
            final(self).strings == old(self).strings,
            final(self).functions == old(self).functions,
            final(self).lambdas == old(self).lambdas,
            final(self).getters == old(self).getters,
            final(self).setters == old(self).setters,
            final(self).imports == old(self).imports,
    {
        let mut i: usize = 0;
        while i < self.modules.len()
            invariant
                i <= self.modules@.len(),
            decreases self.modules@.len() - i,
        {
            if crate::text::string_eq(&self.modules[i].path, &path) {
                return i;
            }
            i = i + 1;
        }
        let ind = self.modules.len();
        self.modules.push(CustomModule { imports: Vec::new(), functions: Vec::new(), path, loaded: false });
        proof {
            if old(self).wf() {
                lemma_tables_grow(old(self).lambdas@, old(self).getters@, old(self).setters@, old(self).functions@,
                    old(self).imports@, old(self).modules@, old(self).sizes(), self.sizes());
                assert forall|i: int| 0 <= i < self.modules@.len() implies module_refs(#[trigger] self.modules@[i], self.sizes()) by {
                    if i < old(self).modules@.len() {
                        assert(self.modules@[i] == old(self).modules@[i]);
                    }
                }
            }
        }
        ind
    }

    /// The index of the first module that is registered but not loaded yet.
    pub fn pending_module(&self) -> (r: Option<usize>)
        ensures
            r matches Some(i) ==> i < self.modules@.len() && !self.modules@[i as int].loaded,
            r is None ==> forall|i: int| 0 <= i < self.modules@.len() ==> self.modules@[i].loaded,
    {
        let mut i: usize = 0;
        while i < self.modules.len()
            invariant
                i <= self.modules@.len(),
                forall|j: int| 0 <= j < i ==> self.modules@[j].loaded,
            decreases self.modules@.len() - i,
        {
            if !self.modules[i].loaded {
                return Some(i);
            }
            i = i + 1;
        }
        None
    }
}

/// Growing the tables is transitive.
pub proof fn lemma_extends_trans(a: &Store, b: &Store, c: &Store)
    requires
        b.extends(a),
        c.extends(b),
    ensures
        c.extends(a),
{
}

/// Every store extends itself.
pub proof fn lemma_extends_refl(a: &Store)
    ensures
        a.extends(a),
{
}

impl Program {
    /// The tables of the program, to parse more modules into, and its
    /// statements.
    pub fn into_store(self) -> (r: (Store, Block))
        ensures
            r.0.strings == self.strings,
            r.0.modules == self.modules,
            r.0.imports == self.imports,
            r.0.functions == self.functions,
            r.0.lambdas == self.lambdas,
            r.0.getters == self.getters,
            r.0.setters == self.setters,
            r.1 == self.body,
            r.0.wf() == (crate::ast::parsing::distinct_strings_of(self) && crate::ast::parsing::program_tables_closed(self)),
    {
        let Program { modules, imports, functions, lambdas, getters, setters, strings, body } = self;
        (Store { strings, modules, imports, functions, lambdas, getters, setters }, body)
    }

    /// A program made of the tables of `s` and the statements `body`.
    pub fn from_store(s: Store, body: Block) -> (p: Program)
        ensures
            p.strings == s.strings,
            p.modules == s.modules,
            p.imports == s.imports,
            p.functions == s.functions,
            p.lambdas == s.lambdas,
            p.getters == s.getters,
            p.setters == s.setters,
            p.body == body,
    {
        Program {
            modules: s.modules,
            imports: s.imports,
            functions: s.functions,
            lambdas: s.lambdas,
            getters: s.getters,
            setters: s.setters,
            strings: s.strings,
            body,
        }
    }
}

} // verus!
