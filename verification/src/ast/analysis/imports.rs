use crate::ast::analysis::accepted::{
    nodes_plain, file_ok, imported_shape, imports_bind, import_ok, lemma_exported_offered, lemma_imports_names_bind, lemma_insert_shape,
    lemma_marks_same_shape, lemma_shape_names, nodes_ok, pubs_of, shape, with_params, with_procs,
};
use crate::ast::analysis::capture::CaptureStack;
use crate::ast::analysis::scope::{clashes, sat_inc, DefData, DefType, ImportValue, Scope, SubState};
use crate::ast::analysis::walk::{
    is_loop_jump, is_return, lemma_insert_names, marks_only, mutable_names, nodes_names_bound, walk_ast,
};
use crate::ast::analysis::{Lams, WalkError, WalkErrorType, WalkResult};
use crate::ast::native::native_fn_names;
use crate::ast::node::{lemma_pub_names_prefix, param_names, pub_fn_names, CustomModule, Import, ImportKind, Module, Procedure};
use crate::location::Location;
use vstd::prelude::*;

verus! {

/// Whether `x` occurs in `v`.
pub fn vec_contains(v: &Vec<usize>, x: usize) -> (b: bool)
    ensures
        b == v@.contains(x),
{
    let mut i: usize = 0;
    while i < v.len()
        invariant
            i <= v@.len(),
            forall|j: int| 0 <= j < i ==> v@[j] != x,
        decreases v@.len() - i,
    {
        if v[i] == x {
            assert(v@[i as int] == x);
            return true;
        }
        i = i + 1;
    }
    false
}

/// Whether `module` offers a function named by the string `name`: a public
/// procedure of a loaded module, or a function of a native package.
pub open spec fn exported(module: Module, modules: Seq<CustomModule>, strings: Seq<String>, name: usize) -> bool {
    match module {
        Module::Custom(ind) => ind < modules.len() && pub_fn_names(modules[ind as int].functions@).contains(name),
        Module::Native(pkg) => name < strings.len() && native_fn_names(pkg).contains(strings[name as int]@),
    }
}

/// Every binding of `new` is the one of `old`, or an import made at depth
/// `level`.
pub open spec fn adds_imports(old: Map<usize, DefData>, new: Map<usize, DefData>, level: usize) -> bool {
    forall|k: usize| #[trigger] new.contains_key(k) ==> (old.contains_key(k) && new[k] == old[k])
        || (new[k].level == level && new[k].spec_is_import())
}

/// The names of an import list.
pub open spec fn list_names(list: Seq<(usize, Location, Location)>) -> Seq<usize> {
    list.map_values(|t: (usize, Location, Location)| t.0)
}

/// The names that an import may bind: every name the module exports for
/// `*`, the module object's name, or the names of the list.
pub open spec fn import_names(import: Import, modules: Seq<CustomModule>, strings: Seq<String>) -> Set<usize> {
    match import.kind {
        ImportKind::All => Set::new(|k: usize| exported(import.module, modules, strings, k)),
        ImportKind::ModuleObject(l) => set![l.data],
        ImportKind::List(list) => list_names(list@).to_set(),
    }
}

/// The names that any of `imports` may bind.
pub open spec fn imports_names(imports: Seq<Import>, modules: Seq<CustomModule>, strings: Seq<String>) -> Set<usize> {
    Set::new(|k: usize| exists|i: int| 0 <= i < imports.len() && #[trigger] import_names(imports[i], modules, strings).contains(k))
}

/// Each import binds only names among those of all the imports.
pub proof fn lemma_import_in_imports(imports: Seq<Import>, modules: Seq<CustomModule>, strings: Seq<String>, k: int)
    requires
        0 <= k < imports.len(),
    ensures
        import_names(imports[k], modules, strings).subset_of(imports_names(imports, modules, strings)),
{
    assert forall|x: usize| import_names(imports[k], modules, strings).contains(x) implies imports_names(imports, modules, strings).contains(x) by {
        assert(0 <= k < imports.len() && import_names(imports[k], modules, strings).contains(x));
    }
}

/// The names of a list of procedures.
pub open spec fn fn_names(functions: Seq<Procedure>) -> Set<usize> {
    Set::new(|k: usize| exists|i: int| 0 <= i < functions.len() && #[trigger] functions[i].identifier.data == k)
}

/// Walks a procedure: its parameters and body in a function scope.
pub fn walk_procedure(procedure: &mut Procedure, scope: &mut Scope, lams: &mut Lams, cap: &mut CaptureStack) -> (r: WalkResult)
    ensures
        final(lams).same_slots(old(lams)),
        final(lams).live() == old(lams).live(),
        final(cap).view_seq().len() == old(cap).view_seq().len(),
        final(scope).same_frame(old(scope)),
        marks_only(old(scope).names(), final(scope).names()),
        final(procedure).identifier == old(procedure).identifier,
        final(procedure).public == old(procedure).public,
        (exists|i: int| 0 <= i < old(procedure).body@.len() && is_loop_jump(#[trigger] old(procedure).body@[i])) ==> r is Err,
        r is Ok ==> nodes_names_bound(
            old(procedure).body@,
            old(scope).names().dom() + param_names(old(procedure).param_list).to_set(),
            mutable_names(old(scope).names()) + param_names(old(procedure).param_list).to_set(),
        ),
        nodes_ok(old(procedure).body@,
            with_params(shape(old(scope).names()), param_names(old(procedure).param_list), sat_inc(old(scope).level)),
            sat_inc(old(scope).level), false, true, old(scope).lam_pass is Some) ==> r is Ok,
        r is Ok && nodes_plain(old(procedure).body@) ==> nodes_ok(old(procedure).body@,
            with_params(shape(old(scope).names()), param_names(old(procedure).param_list), sat_inc(old(scope).level)),
            sat_inc(old(scope).level), false, true, old(scope).lam_pass is Some),
{
    let mut sub = scope.child(SubState::InFunc);
    sub.add_params(&procedure.param_list);
    proof {
        let ps = param_names(procedure.param_list).to_set();
        assert(sub.names().dom() =~= scope.names().dom() + ps);
        assert(mutable_names(sub.names()) =~= mutable_names(scope.names()) + ps);
        assert(shape(sub.names()) =~= with_params(shape(scope.names()), param_names(procedure.param_list), sub.level));
    }
    match walk_ast(&mut procedure.body, &mut sub, lams, cap) {
        Ok(()) => {},
        Err(e) => return Err(e),
    }
    sub.check_params(&mut procedure.param_list);
    sub.check_decls(&mut procedure.body);
    sub.migrate(scope);
    Ok(())
}

/// Checks an import and binds what it brings in: every public procedure of
/// a module or every function of a native package for `*`, a module object
/// for a single name, and each listed function for a list, which must name
/// each function once and only functions the module offers.
pub fn walk_import(import: &Import, modules: &Vec<CustomModule>, strings: &Vec<String>, scope: &mut Scope) -> (r: WalkResult)
    ensures
        final(scope).same_frame(old(scope)),
        import.kind matches ImportKind::List(list) ==> (r is Ok <==> (list_names(list@).no_duplicates()
            && forall|i: int| 0 <= i < list@.len() ==> #[trigger] exported(import.module, modules@, strings@, list@[i].0))),
        !(import.kind is List) ==> r is Ok,
        import.kind matches ImportKind::ModuleObject(l) ==> final(scope).names() == old(scope).names().insert(
            l.data,
            DefData { kind: DefType::Import(ImportValue::Module(import.module)), level: old(scope).level },
        ),
        forall|k: usize| old(scope).names().contains_key(k) ==> #[trigger] final(scope).names().contains_key(k),
        final(scope).names().dom().subset_of(old(scope).names().dom() + import_names(*import, modules@, strings@)),
        mutable_names(final(scope).names()).subset_of(mutable_names(old(scope).names())),
        import.kind is All && (import.module is Custom || old(scope).level == 0) ==> forall|k: usize|
            exported(import.module, modules@, strings@, k) ==> #[trigger] final(scope).names().contains_key(k),
        import.kind matches ImportKind::List(list) ==> (r is Ok && (import.module is Custom || old(scope).level == 0)
            ==> forall|i: int| 0 <= i < list@.len() ==> final(scope).names().contains_key(#[trigger] list@[i].0)),
        adds_imports(old(scope).names(), final(scope).names(), old(scope).level),
{
    let ghost allowed = old(scope).names().dom() + import_names(*import, modules@, strings@);
    let ghost muts0 = mutable_names(old(scope).names());
    match &import.kind {
        ImportKind::All => {
            match import.module {
                Module::Custom(mod_ind) => {
                    if mod_ind < modules.len() {
                        let module = &modules[mod_ind];
                        let mut pub_ind: usize = 0;
                        let mut i: usize = 0;
                        let ghost fs = module.functions@;
                        while i < module.functions.len()
                            invariant
                                i <= module.functions@.len(),
                                fs == module.functions@,
                                pub_ind <= i,
                                scope.same_frame(old(scope)),
                                forall|k: usize| old(scope).names().contains_key(k) ==> #[trigger] scope.names().contains_key(k),
                                forall|k: usize| pub_fn_names(fs.take(i as int)).contains(k) ==> #[trigger] scope.names().contains_key(k),
                                scope.names().dom().subset_of(allowed),
                                allowed == old(scope).names().dom() + import_names(*import, modules@, strings@),
                                muts0 == mutable_names(old(scope).names()),
                                mutable_names(scope.names()).subset_of(muts0),
                                adds_imports(old(scope).names(), scope.names(), old(scope).level),
                                import.kind is All,
                                import.module == Module::Custom(mod_ind),
                                mod_ind < modules@.len(),
                                fs == modules@[mod_ind as int].functions@,
                            decreases module.functions@.len() - i,
                        {
                            proof {
                                assert(fs.take(i + 1).drop_last() =~= fs.take(i as int));
                                assert(fs.take(i + 1).last() == fs[i as int]);
                            }
                            if module.functions[i].public {
                                let ghost nb = scope.names();
                                proof {
                                    let name = fs[i as int].identifier.data;
                                    lemma_pub_names_prefix(fs, i + 1);
                                    assert(pub_fn_names(fs.take(i + 1)) == pub_fn_names(fs.take(i as int)).push(name));
                                    let p1 = pub_fn_names(fs.take(i + 1));
                                    assert(p1[p1.len() - 1] == name);
                                    assert(pub_fn_names(fs).take(p1.len() as int)[p1.len() - 1] == name);
                                    assert(pub_fn_names(fs).contains(name));
                                    assert(import_names(*import, modules@, strings@).contains(name));
                                }
                                let _ = scope.import_function(module.functions[i].identifier.data, mod_ind, pub_ind);
                                proof {
                                    lemma_insert_names(nb, fs[i as int].identifier.data,
                                        DefData { kind: DefType::Import(ImportValue::Function { module: mod_ind, index: pub_ind }), level: old(scope).level });
                                }
                                pub_ind = pub_ind + 1;
                                proof {
                                    let p0 = pub_fn_names(fs.take(i as int));
                                    assert(pub_fn_names(fs.take(i + 1)) == p0.push(fs[i as int].identifier.data));
                                    let p1 = pub_fn_names(fs.take(i + 1));
                                    assert forall|k: usize| p1.contains(k) implies #[trigger] scope.names().contains_key(k) by {
                                        let w = choose|w: int| 0 <= w < p1.len() && #[trigger] p1[w] == k;
                                        if w < p0.len() {
                                            assert(p0[w] == k);
                                            assert(p0.contains(k));
                                        }
                                    }
                                }
                            }
                            i = i + 1;
                        }
                        proof {
                            assert(fs.take(i as int) =~= fs);
                        }
                    }
                },
                Module::Native(pkg) => {
                    let mut i: usize = 0;
                    while i < strings.len()
                        invariant
                            i <= strings@.len(),
                            scope.same_frame(old(scope)),
                            forall|k: usize| old(scope).names().contains_key(k) ==> #[trigger] scope.names().contains_key(k),
                            old(scope).level == 0 ==> forall|k: usize| k < i && native_fn_names(pkg).contains(strings@[k as int]@)
                                ==> #[trigger] scope.names().contains_key(k),
                            scope.names().dom().subset_of(allowed),
                            allowed == old(scope).names().dom() + import_names(*import, modules@, strings@),
                            muts0 == mutable_names(old(scope).names()),
                            mutable_names(scope.names()).subset_of(muts0),
                                adds_imports(old(scope).names(), scope.names(), old(scope).level),
                            import.kind is All,
                            import.module == Module::Native(pkg),
                        decreases strings@.len() - i,
                    {
                        let ghost nb = scope.names();
                        match pkg.fn_from_str(strings[i].as_str()) {
                            Some(f) => {
                                proof {
                                    assert(exported(import.module, modules@, strings@, i));
                                    assert(import_names(*import, modules@, strings@).contains(i));
                                }
                                scope.native_function(i, f);
                                proof {
                                    lemma_insert_names(nb, i, DefData { kind: DefType::Import(ImportValue::NativeFn(f)), level: 0 });
                                }
                            },
                            None => {},
                        }
                        i = i + 1;
                    }
                },
            }
            Ok(())
        },
        ImportKind::ModuleObject(l) => {
            let ghost nb = scope.names();
            let _ = scope.import_module(l.data, import.module);
            proof {
                lemma_insert_names(nb, l.data, DefData { kind: DefType::Import(ImportValue::Module(import.module)), level: old(scope).level });
                assert(import_names(*import, modules@, strings@).contains(l.data));
            }
            Ok(())
        },
        ImportKind::List(list) => {
            let ghost ns = list_names(list@);
            let mut inserted: Vec<usize> = Vec::new();
            let mut i: usize = 0;
            while i < list.len()
                invariant
                    i <= list@.len(),
                    import.kind == ImportKind::List(*list),
                    ns == list_names(list@),
                    inserted@ == ns.take(i as int),
                    ns.take(i as int).no_duplicates(),
                    forall|j: int| 0 <= j < i ==> #[trigger] exported(import.module, modules@, strings@, list@[j].0),
                    scope.same_frame(old(scope)),
                    forall|k: usize| old(scope).names().contains_key(k) ==> #[trigger] scope.names().contains_key(k),
                    import.module is Custom || old(scope).level == 0 ==>
                        forall|j: int| 0 <= j < i ==> scope.names().contains_key(#[trigger] list@[j].0),
                    scope.names().dom().subset_of(allowed),
                    allowed == old(scope).names().dom() + import_names(*import, modules@, strings@),
                    muts0 == mutable_names(old(scope).names()),
                    mutable_names(scope.names()).subset_of(muts0),
                                adds_imports(old(scope).names(), scope.names(), old(scope).level),
                decreases list@.len() - i,
            {
                let ghost nb = scope.names();
                let name = list[i].0;
                assert(ns[i as int] == name);
                if vec_contains(&inserted, name) {
                    proof {
                        let k = choose|k: int| 0 <= k < i && inserted@[k] == name;
                        assert(ns[k] == ns[i as int]);
                        assert(!ns.no_duplicates());
                    }
                    return Err(WalkError {
                        start: list[i].1.clone(),
                        end: list[i].2.clone(),
                        kind: WalkErrorType::InvalidRedefinition(name),
                    });
                }
                inserted.push(name);
                proof {
                    assert(list_names(list@)[i as int] == name);
                    assert(list_names(list@).to_set().contains(name));
                    assert(import_names(*import, modules@, strings@).contains(name));
                }
                let found = match import.module {
                    Module::Custom(ind) => {
                        if ind < modules.len() {
                            match modules[ind].get_function(name) {
                                Some(fnc_ind) => {
                                    let _ = scope.import_function(name, ind, fnc_ind);
                                    proof {
                                        lemma_insert_names(nb, name, DefData { kind: DefType::Import(ImportValue::Function { module: ind, index: fnc_ind }), level: old(scope).level });
                                    }
                                    true
                                },
                                None => false,
                            }
                        } else {
                            false
                        }
                    },
                    Module::Native(pkg) => {
                        if name < strings.len() {
                            match pkg.fn_from_str(strings[name].as_str()) {
                                Some(f) => {
                                    scope.native_function(name, f);
                                    proof {
                                        lemma_insert_names(nb, name, DefData { kind: DefType::Import(ImportValue::NativeFn(f)), level: 0 });
                                    }
                                    true
                                },
                                None => false,
                            }
                        } else {
                            false
                        }
                    },
                };
                assert(found == exported(import.module, modules@, strings@, name));
                assert(list@[i as int].0 == name);
                if !found {
                    return Err(WalkError {
                        start: list[i].1.clone(),
                        end: list[i].2.clone(),
                        kind: WalkErrorType::IdentifierNotFound(name),
                    });
                }
                proof {
                    assert(ns.take(i + 1) =~= ns.take(i as int).push(name));
                }
                i = i + 1;
            }
            proof {
                assert(ns.take(i as int) =~= ns);
            }
            Ok(())
        },
    }
}

/// Walks the imports of a file in order, in a fresh outermost scope.
pub fn walk_imports(imports: &Vec<Import>, modules: &Vec<CustomModule>, strings: &Vec<String>, scope: &mut Scope) -> (r: WalkResult)
    requires
        old(scope).names() == Map::<usize, DefData>::empty(),
        old(scope).level == 0,
    ensures
        final(scope).same_frame(old(scope)),
        final(scope).names().dom().subset_of(imports_names(imports@, modules@, strings@)),
        mutable_names(final(scope).names()).subset_of(Set::<usize>::empty()),
        r is Ok <==> forall|i: int| 0 <= i < imports@.len() ==> import_ok(#[trigger] imports@[i], pubs_of(modules@), strings@),
        r is Ok ==> shape(final(scope).names()) == imported_shape(imports_bind(imports@, pubs_of(modules@), strings@)),
{
    let ghost allowed = imports_names(imports@, modules@, strings@);
    let mut k: usize = 0;
    proof {
        assert(scope.names().dom() =~= Set::<usize>::empty());
        assert(mutable_names(scope.names()) =~= Set::<usize>::empty());
    }
    while k < imports.len()
        invariant
            k <= imports@.len(),
            scope.same_frame(old(scope)),
            scope.level == 0,
            allowed == imports_names(imports@, modules@, strings@),
            scope.names().dom().subset_of(allowed),
            mutable_names(scope.names()).subset_of(Set::<usize>::empty()),
            forall|j: int| 0 <= j < k ==> import_ok(#[trigger] imports@[j], pubs_of(modules@), strings@),
            forall|x: usize| #[trigger] scope.names().contains_key(x) ==> scope.names()[x].level == 0 && scope.names()[x].spec_is_import(),
            forall|j: int, x: usize| 0 <= j < k && #[trigger] import_names(imports@[j], modules@, strings@).contains(x)
                ==> scope.names().contains_key(x),
        decreases imports@.len() - k,
    {
        let ghost nb = scope.names();
        let imp = &imports[k];
        let r = walk_import(imp, modules, strings, scope);
        match r {
            Ok(()) => {},
            Err(e) => {
                proof {
                    let ghost kind = imports@[k as int].kind;
                    if let ImportKind::List(list) = kind {
                        if import_ok(imports@[k as int], pubs_of(modules@), strings@) {
                            assert forall|i: int| 0 <= i < list@.len() implies
                                #[trigger] exported(imp.module, modules@, strings@, list@[i].0) by {
                                lemma_exported_offered(imp.module, modules@, strings@, list@[i].0);
                            }
                        }
                    }
                }
                return Err(e);
            },
        }
        proof {
            let ghost kind = imports@[k as int].kind;
            if let ImportKind::List(list) = kind {
                assert forall|i: int| 0 <= i < list@.len() implies
                    #[trigger] crate::ast::analysis::accepted::offered(imp.module, pubs_of(modules@), strings@, list@[i].0) by {
                    lemma_exported_offered(imp.module, modules@, strings@, list@[i].0);
                }
            }
        }
        proof {
            lemma_import_in_imports(imports@, modules@, strings@, k as int);
            assert forall|x: usize| #[trigger] import_names(imports@[k as int], modules@, strings@).contains(x)
                implies scope.names().contains_key(x) by {
                let ghost kind = imports@[k as int].kind;
                match kind {
                    ImportKind::List(list) => {
                        let ns = list_names(list@);
                        let w = choose|w: int| 0 <= w < ns.len() && ns[w] == x;
                        assert(list@[w].0 == x);
                    },
                    _ => {},
                }
            }
        }
        k = k + 1;
    }
    proof {
        lemma_imports_names_bind(imports@, modules@, strings@);
        let b = imports_bind(imports@, pubs_of(modules@), strings@);
        assert forall|x: usize| b.contains(x) implies scope.names().contains_key(x) by {
            let j = choose|j: int| 0 <= j < imports@.len() && #[trigger] import_names(imports@[j], modules@, strings@).contains(x);
        }
        assert(shape(scope.names()) =~= imported_shape(b));
    }
    Ok(())
}

/// Walks a loaded module in a scope of its own: its imports, then its
/// procedures, which must have distinct names.
pub fn walk_module(
    module: &mut CustomModule,
    module_ind: usize,
    modules: &Vec<CustomModule>,
    lams: &mut Lams,
    cap: &mut CaptureStack,
    strings: &Vec<String>,
) -> (r: WalkResult)
    ensures
        final(lams).same_slots(old(lams)),
        final(lams).live() == old(lams).live(),
        final(cap).view_seq().len() == old(cap).view_seq().len(),
        final(module).functions@.len() == old(module).functions@.len(),
        r is Ok ==> forall|i: int, j: int| 0 <= i < j < old(module).functions@.len() ==>
            #[trigger] old(module).functions@[i].identifier.data != #[trigger] old(module).functions@[j].identifier.data,
        forall|i: int| 0 <= i < old(module).functions@.len() ==> (#[trigger] final(module).functions@[i]).identifier
            == old(module).functions@[i].identifier && final(module).functions@[i].public == old(module).functions@[i].public,
        r is Ok ==> forall|i: int| 0 <= i < old(module).functions@.len() ==> nodes_names_bound(
            (#[trigger] old(module).functions@[i]).body@,
            imports_names(old(module).imports@, modules@, strings@) + fn_names(old(module).functions@)
                + param_names(old(module).functions@[i].param_list).to_set(),
            param_names(old(module).functions@[i].param_list).to_set(),
        ),
        file_ok(old(module).imports@, old(module).functions@, pubs_of(modules@), strings@) ==> r is Ok,
        r is Ok && (forall|i: int| 0 <= i < old(module).functions@.len() ==> nodes_plain((#[trigger] old(module).functions@[i]).body@))
            ==> file_ok(old(module).imports@, old(module).functions@, pubs_of(modules@), strings@),
{
    let ghost allowed = imports_names(module.imports@, modules@, strings@);
    let mut scope = Scope::new();
    match walk_imports(&module.imports, modules, strings, &mut scope) {
        Ok(()) => {},
        Err(e) => return Err(e),
    }
    proof {
        let fs = module.functions@;
        assert forall|i: int| 0 <= i < fs.len() implies !clashes(scope.names(), #[trigger] fs[i].identifier.data, 0) by {
            lemma_shape_names(scope.names(), fs[i].identifier.data, 0);
        }
    }
    match declare_functions(&module.functions, Some(module_ind), &mut scope) {
        Ok(()) => {},
        Err(e) => return Err(e),
    }
    let ghost top = scope.names();
    let ghost fs = module.functions@;
    let r = walk_procedures(&mut module.functions, &mut scope, lams, cap);
    proof {
        if r is Ok {
            assert forall|i: int| 0 <= i < fs.len() implies nodes_names_bound(
                (#[trigger] fs[i]).body@,
                allowed + fn_names(fs) + param_names(fs[i].param_list).to_set(),
                param_names(fs[i].param_list).to_set(),
            ) by {
                let ps = param_names(fs[i].param_list).to_set();
                crate::ast::analysis::walk::lemma_nodes_bound_mono(
                    fs[i].body@,
                    top.dom() + ps,
                    mutable_names(top) + ps,
                    allowed + fn_names(fs) + ps,
                    ps,
                );
            }
        }
    }
    r
}

/// Binds the procedures of a file in its outermost scope; a name used twice
/// is an error.
pub fn declare_functions(functions: &Vec<Procedure>, module: Option<usize>, scope: &mut Scope) -> (r: WalkResult)
    requires
        old(scope).level == 0,
    ensures
        final(scope).same_frame(old(scope)),
        final(scope).names().dom().subset_of(old(scope).names().dom() + fn_names(functions@)),
        mutable_names(final(scope).names()).subset_of(mutable_names(old(scope).names())),
        r is Ok ==> forall|i: int, j: int| 0 <= i < j < functions@.len() ==>
            #[trigger] functions@[i].identifier.data != #[trigger] functions@[j].identifier.data,
        (forall|i: int, j: int| 0 <= i < j < functions@.len() ==>
            #[trigger] functions@[i].identifier.data != #[trigger] functions@[j].identifier.data)
            && (forall|i: int| 0 <= i < functions@.len() ==> !clashes(old(scope).names(), #[trigger] functions@[i].identifier.data, 0))
            ==> r is Ok,
        r is Ok ==> shape(final(scope).names()) == with_procs(shape(old(scope).names()), functions@),
{
    let mut i: usize = 0;
    proof {
        assert(fn_names(functions@.take(0)) =~= Set::<usize>::empty());
        assert(with_procs(shape(old(scope).names()), functions@.take(0)) =~= shape(old(scope).names()));
    }
    while i < functions.len()
        invariant
            i <= functions@.len(),
            scope.same_frame(old(scope)),
            scope.level == 0,
            forall|j: int| 0 <= j < i ==> {
                let n = #[trigger] functions@[j].identifier.data;
                &&& scope.names().contains_key(n)
                &&& scope.names()[n].level == 0
                &&& !scope.names()[n].spec_is_import()
            },
            forall|a: int, b: int| 0 <= a < b < i ==>
                #[trigger] functions@[a].identifier.data != #[trigger] functions@[b].identifier.data,
            scope.names().dom().subset_of(old(scope).names().dom() + fn_names(functions@)),
            mutable_names(scope.names()).subset_of(mutable_names(old(scope).names())),
            shape(scope.names()) == with_procs(shape(old(scope).names()), functions@.take(i as int)),
        decreases functions@.len() - i,
    {
        let name = functions[i].identifier.data;
        let ghost nb = scope.names();
        proof {
            lemma_shape_names(nb, name, 0);
            lemma_shape_names(old(scope).names(), name, 0);
            assert(functions@.take(i as int).len() == i);
            if fn_names(functions@.take(i as int)).contains(name) {
                let a = choose|a: int| 0 <= a < i && #[trigger] functions@.take(i as int)[a].identifier.data == name;
                assert(functions@[a].identifier.data == functions@[i as int].identifier.data);
            }
        }
        let ok = scope.insert_fn(name, i, module);
        proof {
            lemma_insert_names(nb, name, DefData { kind: DefType::Function { module, index: i }, level: 0 });
            lemma_insert_shape(nb, name, DefData { kind: DefType::Function { module, index: i }, level: 0 });
            assert(functions@[i as int].identifier.data == name);
            assert(fn_names(functions@).contains(name));
            assert(fn_names(functions@.take(i + 1)) =~= fn_names(functions@.take(i as int)).insert(name)) by {
                assert forall|k: usize| fn_names(functions@.take(i + 1)).contains(k) implies fn_names(functions@.take(i as int)).insert(name).contains(k) by {
                    let a = choose|a: int| 0 <= a < i + 1 && #[trigger] functions@.take(i + 1)[a].identifier.data == k;
                    if a < i {
                        assert(functions@.take(i as int)[a].identifier.data == k);
                    }
                }
                assert forall|k: usize| fn_names(functions@.take(i as int)).insert(name).contains(k) implies fn_names(functions@.take(i + 1)).contains(k) by {
                    if k == name {
                        assert(functions@.take(i + 1)[i as int].identifier.data == k);
                    } else {
                        let a = choose|a: int| 0 <= a < i && #[trigger] functions@.take(i as int)[a].identifier.data == k;
                        assert(functions@.take(i + 1)[a].identifier.data == k);
                    }
                }
            }
            assert(with_procs(shape(old(scope).names()), functions@.take(i + 1))
                =~= with_procs(shape(old(scope).names()), functions@.take(i as int)).insert(name, (0usize, false, false)));
        }
        if !ok {
            return Err(WalkError {
                start: functions[i].identifier.start.clone(),
                end: functions[i].identifier.end.clone(),
                kind: WalkErrorType::InvalidRedefinition(name),
            });
        }
        proof {
            assert forall|a: int| 0 <= a < i implies functions@[a].identifier.data != name by {
                let n = functions@[a].identifier.data;
                if n == name {
                    assert(clashes(old(scope).names(), name, 0) || true);
                }
            }
        }
        i = i + 1;
    }
    proof {
        assert(functions@.take(i as int) =~= functions@);
    }
    Ok(())
}

/// Walks the procedures of a file in order.
pub fn walk_procedures(functions: &mut Vec<Procedure>, scope: &mut Scope, lams: &mut Lams, cap: &mut CaptureStack) -> (r: WalkResult)
    ensures
        final(lams).same_slots(old(lams)),
        final(lams).live() == old(lams).live(),
        final(cap).view_seq().len() == old(cap).view_seq().len(),
        final(scope).same_frame(old(scope)),
        marks_only(old(scope).names(), final(scope).names()),
        final(functions)@.len() == old(functions)@.len(),
        forall|i: int| 0 <= i < old(functions)@.len() ==> (#[trigger] final(functions)@[i]).identifier == old(functions)@[i].identifier
            && final(functions)@[i].public == old(functions)@[i].public,
        r is Ok ==> forall|i: int| 0 <= i < old(functions)@.len() ==> nodes_names_bound(
            (#[trigger] old(functions)@[i]).body@,
            old(scope).names().dom() + param_names(old(functions)@[i].param_list).to_set(),
            mutable_names(old(scope).names()) + param_names(old(functions)@[i].param_list).to_set(),
        ),
        (forall|i: int| 0 <= i < old(functions)@.len() ==> nodes_ok((#[trigger] old(functions)@[i]).body@,
            with_params(shape(old(scope).names()), param_names(old(functions)@[i].param_list), sat_inc(old(scope).level)),
            sat_inc(old(scope).level), false, true, old(scope).lam_pass is Some)) ==> r is Ok,
        r is Ok && (forall|i: int| 0 <= i < old(functions)@.len() ==> nodes_plain((#[trigger] old(functions)@[i]).body@))
            ==> forall|i: int| 0 <= i < old(functions)@.len() ==> nodes_ok((#[trigger] old(functions)@[i]).body@,
            with_params(shape(old(scope).names()), param_names(old(functions)@[i].param_list), sat_inc(old(scope).level)),
            sat_inc(old(scope).level), false, true, old(scope).lam_pass is Some),
{
    let ghost f0 = functions@;
    let ghost n0 = scope.names();
    let mut i: usize = 0;
    while i < functions.len()
        invariant
            i <= functions@.len(),
            functions@.len() == old(functions)@.len(),
            f0 == old(functions)@,
            n0 == old(scope).names(),
            lams.same_slots(old(lams)),
            lams.live() == old(lams).live(),
            cap.view_seq().len() == old(cap).view_seq().len(),
            scope.same_frame(old(scope)),
            marks_only(old(scope).names(), scope.names()),
            forall|j: int| i <= j < functions@.len() ==> #[trigger] functions@[j] == f0[j],
            forall|j: int| 0 <= j < i ==> (#[trigger] functions@[j]).identifier == f0[j].identifier
                && functions@[j].public == f0[j].public,
            forall|j: int| 0 <= j < i ==> nodes_names_bound(
                (#[trigger] f0[j]).body@,
                n0.dom() + param_names(f0[j].param_list).to_set(),
                mutable_names(n0) + param_names(f0[j].param_list).to_set(),
            ),
            (forall|j: int| 0 <= j < f0.len() ==> nodes_plain((#[trigger] f0[j]).body@)) ==> forall|j: int| 0 <= j < i ==> nodes_ok(
                (#[trigger] f0[j]).body@,
                with_params(shape(n0), param_names(f0[j].param_list), sat_inc(old(scope).level)),
                sat_inc(old(scope).level), false, true, old(scope).lam_pass is Some),
        decreases functions@.len() - i,
    {
        proof {
            crate::ast::analysis::walk::lemma_marks_same_names(n0, scope.names());
            lemma_marks_same_shape(n0, scope.names());
        }
        let ghost before = functions@;
        match walk_procedure(&mut functions[i], scope, lams, cap) {
            Ok(()) => {},
            Err(e) => {
                proof {
                    assert forall|j: int| 0 <= j < functions@.len() implies (#[trigger] functions@[j]).identifier == f0[j].identifier
                        && functions@[j].public == f0[j].public by {
                        if j != i {
                            assert(functions@[j] == before[j]);
                        }
                    }
                }
                return Err(e);
            },
        }
        proof {
            assert forall|j: int| 0 <= j < functions@.len() && j != i implies #[trigger] functions@[j] == before[j] by {}
        }
        i = i + 1;
    }
    Ok(())
}

} // verus!
