use grib::ast::analysis::capture::CaptureStack;
use grib::ast::analysis::scope::{LamPass, Scope, SubState};
use grib::ast::native::NativeFunction;
use grib::ast::node::{NativePackage, Param, Parameters};
use grib::runtime::heap::Gc;
use grib::runtime::mark::{mark_heap, mark_stack};
use grib::runtime::memory::Runtime;
use grib::runtime::slot::{Markable, MemSlot, RuntimeConfig};
use grib::runtime::stack::Stack;
use grib::runtime::values::{
    Callable, GribKey, GribString, GribStringRef, GribValue, HashPropertyValue, HashValue, HeapValue, KnownIndex,
};

fn heap_string(rt: &Runtime, i: usize) -> Option<String> {
    match &rt.gc.heap[i].value {
        Some(MemSlot::Value(HeapValue::String(s))) => Some(s.clone()),
        _ => None,
    }
}

#[test]
fn clean_keeps_what_the_stack_reaches() {
    let mut rt = Runtime::new(RuntimeConfig { cleanup_after: 100 });
    let a = rt.alloc_heap(HeapValue::String("kept".to_string()));
    let b = rt.alloc_heap(HeapValue::Array(vec![GribValue::HeapValue(a)]));
    let c = rt.alloc_heap(HeapValue::String("garbage".to_string()));
    assert_eq!((a, b, c), (0, 1, 2));
    rt.stack.add(MemSlot::Value(GribValue::HeapValue(b)));
    rt.clean();
    assert_eq!(heap_string(&rt, a), Some("kept".to_string()));
    assert!(matches!(rt.gc.heap[b].value, Some(MemSlot::Value(HeapValue::Array(_)))));
    assert!(rt.gc.heap[c].value.is_none());
    assert_eq!(rt.free_pointers, vec![2]);
    assert!(rt.gc.heap.iter().all(|m| !m.marked));
    let d = rt.alloc_heap(HeapValue::String("reused".to_string()));
    assert_eq!(d, 2);
    assert_eq!(heap_string(&rt, d), Some("reused".to_string()));
}

#[test]
fn clean_follows_captures_hashes_and_lambdas() {
    let mut rt = Runtime::new(RuntimeConfig { cleanup_after: 100 });
    let captured = rt.alloc_captured(GribValue::Bool(true));
    let key = rt.alloc_heap(HeapValue::String("key".to_string()));
    let getter_stack = rt.alloc_heap(HeapValue::CapturedStack(vec![MemSlot::Captured(captured)]));
    let hash = rt.alloc_heap(HeapValue::Hash(HashValue {
        mutable: true,
        values: vec![(
            GribKey { hash: 1, string: GribString::Heap(key) },
            HashPropertyValue::AutoProp {
                get: Some(grib::runtime::values::AccessFunc::Callable { index: 0, stack: Some(getter_stack) }),
                set: None,
            },
        )],
    }));
    let binding = rt.alloc_heap(HeapValue::Array(vec![]));
    let lost = rt.alloc_heap(HeapValue::Array(vec![GribValue::HeapValue(hash)]));
    rt.stack.add(MemSlot::Value(GribValue::HeapValue(hash)));
    rt.stack.add(MemSlot::Value(GribValue::Callable(Callable::Lambda {
        binding: Some(binding),
        stack: None,
        index: 0,
    })));
    rt.clean();
    for kept in [captured, key, getter_stack, hash, binding] {
        assert!(rt.gc.heap[kept].value.is_some(), "slot {} was freed", kept);
    }
    assert!(rt.gc.heap[lost].value.is_none());
    assert_eq!(rt.free_pointers, vec![lost]);
}

#[test]
fn clean_frees_unreachable_cycles() {
    let mut rt = Runtime::new(RuntimeConfig { cleanup_after: 100 });
    let a = rt.reserve_slot();
    let b = rt.alloc_heap(HeapValue::Array(vec![GribValue::HeapValue(a)]));
    rt.gc.set_heap_val_at(HeapValue::Array(vec![GribValue::HeapValue(b)]), a);
    rt.clean();
    assert!(rt.gc.heap[a].value.is_none());
    assert!(rt.gc.heap[b].value.is_none());
    assert_eq!(rt.free_pointers, vec![0, 1]);
}

#[test]
fn allocation_collects_after_the_configured_count() {
    let mut rt = Runtime::new(RuntimeConfig { cleanup_after: 1 });
    let a = rt.alloc_heap(HeapValue::String("one".to_string()));
    let b = rt.alloc_heap(HeapValue::String("two".to_string()));
    assert_eq!((a, b), (0, 1));
    rt.stack.add(MemSlot::Value(GribValue::String(GribString::Heap(b))));
    // the third allocation collects first: slot 0 is unreachable and reused
    let c = rt.alloc_heap(HeapValue::String("three".to_string()));
    assert_eq!(c, 0);
    assert_eq!(heap_string(&rt, b), Some("two".to_string()));
    assert_eq!(heap_string(&rt, c), Some("three".to_string()));
    assert_eq!(rt.allocations, 1);
}

#[test]
fn mark_heap_terminates_on_cycles() {
    let mut gc = Gc::new();
    gc.heap.push(Markable { value: Some(MemSlot::Value(HeapValue::Array(vec![GribValue::HeapValue(1)]))), marked: false });
    gc.heap.push(Markable { value: Some(MemSlot::Value(HeapValue::Array(vec![GribValue::HeapValue(0)]))), marked: false });
    gc.heap.push(Markable { value: Some(MemSlot::Value(HeapValue::String("x".to_string()))), marked: false });
    mark_heap(&mut gc, 0);
    assert!(gc.heap[0].marked && gc.heap[1].marked);
    assert!(!gc.heap[2].marked);
    mark_stack(&mut gc, &GribValue::String(GribString::Heap(2)));
    assert!(gc.heap[2].marked);
    mark_heap(&mut gc, 17);
}

#[test]
fn alloc_str_chooses_representation() {
    let mut rt = Runtime::new(RuntimeConfig { cleanup_after: 100 });
    assert_eq!(rt.alloc_str(String::new()), GribString::Static(""));
    assert_eq!(rt.alloc_str("a".to_string()), GribString::Char('a'));
    match rt.alloc_str("ab".to_string()) {
        GribString::Heap(i) => assert_eq!(heap_string(&rt, i), Some("ab".to_string())),
        other => panic!("unexpected {:?}", other),
    }
}

#[test]
fn add_params_fills_missing_and_spread() {
    let mut rt = Runtime::new(RuntimeConfig { cleanup_after: 100 });
    let params = Parameters {
        params: vec![Param { name: 0, captured: false }, Param { name: 1, captured: true }, Param { name: 2, captured: false }],
        vardic: Some(Param { name: 3, captured: false }),
    };
    let one = GribValue::Number(1.0f64.to_bits());
    let two = GribValue::Number(2.0f64.to_bits());
    let n = rt.add_params(&params, vec![one, two]);
    assert_eq!(n, 4);
    assert_eq!(rt.stack.len(), 4);
    assert!(matches!(rt.stack.stack[0], MemSlot::Value(GribValue::Number(b)) if f64::from_bits(b) == 1.0));
    match rt.stack.stack[1] {
        MemSlot::Captured(i) => {
            assert!(matches!(rt.gc.get_captured(i), GribValue::Number(b) if f64::from_bits(*b) == 2.0))
        }
        ref other => panic!("unexpected {:?}", other),
    }
    assert!(matches!(rt.stack.stack[2], MemSlot::Value(GribValue::Nil)));
    match rt.stack.stack[3] {
        MemSlot::Value(GribValue::HeapValue(i)) => {
            assert!(matches!(&rt.gc.heap[i].value, Some(MemSlot::Value(HeapValue::Array(a))) if a.is_empty()))
        }
        ref other => panic!("unexpected {:?}", other),
    }
}

#[test]
fn add_stack_pushes_captured_variables() {
    let mut rt = Runtime::new(RuntimeConfig { cleanup_after: 100 });
    let st = rt.alloc_heap(HeapValue::CapturedStack(vec![MemSlot::Captured(7), MemSlot::Value(GribValue::Nil)]));
    assert_eq!(rt.add_stack(Some(st)), 2);
    assert_eq!(rt.add_stack(None), 0);
    assert_eq!(rt.stack.len(), 2);
    assert!(matches!(rt.stack.stack[0], MemSlot::Captured(7)));
}

#[test]
fn stack_offsets_and_pops() {
    let mut s = Stack::new();
    s.add(MemSlot::Captured(1));
    s.add(MemSlot::Captured(2));
    s.add(MemSlot::Captured(3));
    assert!(matches!(s.offset_slot(1), Some(MemSlot::Captured(3))));
    assert!(matches!(s.offset_slot(3), Some(MemSlot::Captured(1))));
    assert!(s.offset_slot(0).is_none());
    assert!(s.offset_slot(4).is_none());
    s.pop_stack(2);
    assert_eq!(s.len(), 1);
    s.pop_stack(5);
    assert_eq!(s.len(), 0);
    s.pop();
    assert_eq!(s.len(), 0);
}

#[test]
fn gc_lookups() {
    let mut rt = Runtime::new(RuntimeConfig { cleanup_after: 100 });
    let arr = rt.alloc_heap(HeapValue::Array(vec![GribValue::Bool(true)]));
    let cap = rt.alloc_captured(GribValue::Bool(false));
    assert_eq!(rt.gc.typed_index(arr), Some(KnownIndex::Array(grib::runtime::values::ArrayRef(arr))));
    assert_eq!(rt.gc.typed_index(cap), None);
    assert_eq!(rt.gc.typed_index(99), None);
    assert_eq!(rt.gc.try_get_array(&GribValue::HeapValue(arr)).map(|a| a.len()), Some(1));
    assert!(rt.gc.try_get_hash(&GribValue::HeapValue(arr)).is_none());
    assert!(matches!(rt.gc.normalize_val(&GribValue::HeapValue(cap)), GribValue::Bool(false)));
    assert!(matches!(rt.gc.normalize_val(&GribValue::HeapValue(arr)), GribValue::HeapValue(i) if i == arr));
    rt.gc.remove(arr);
    assert!(rt.gc.heap[arr].value.is_none());
    assert_eq!(GribValue::HeapValue(arr).ptr(), Some(arr));
    assert_eq!(GribValue::Nil.ptr(), None);
    assert!(GribValue::err("boom").is_err());
}

#[test]
fn string_ref_operations() {
    let r = GribStringRef::Ref("abc");
    let c = GribStringRef::Char('x');
    assert_eq!(r.repeat(2), "abcabc");
    assert_eq!(c.repeat(3), "xxx");
    assert_eq!(r.repeat(0), "");
    assert_eq!(r.char_at(1), Some('b'));
    assert_eq!(r.char_at(3), None);
    assert_eq!(c.char_at(0), Some('x'));
    assert_eq!(c.char_at(1), None);
    assert!(GribStringRef::Ref("").is_empty());
    assert!(!c.is_empty());
    assert_eq!(GribStringRef::Ref("a\"b").stringify(), "\"a\\\"b\"");
    assert_eq!(c.stringify(), "\"x\"");
    assert_eq!(r.with_str(|s: &str| s.len()), 3);
    assert_eq!(c.with_str(|s: &str| s.to_uppercase()), "X");
    assert_eq!(c.borrow(), "x");
    assert_eq!(r.borrow(), "abc");
    assert!(matches!(r.borrow(), std::borrow::Cow::Borrowed(_)));
}

#[test]
fn native_packages_list_their_functions() {
    let names = NativePackage::Math.get_functions();
    assert_eq!(names.len(), 18);
    assert!(names.contains(&"sqrt"));
    let f = NativePackage::Str.fn_from_str("strlen").unwrap();
    assert_eq!(f, NativeFunction { package: NativePackage::Str, index: 1 });
    assert_eq!(f.fn_name(), "strlen");
    assert_eq!(f.mod_name(), NativePackage::Str);
    assert_eq!(NativePackage::Str.fn_from_str("sqrt"), None);
    assert_eq!(NativePackage::Console.get_functions(), vec!["print", "println", "printError", "readlineSync"]);
}

#[test]
fn scope_redefinition_rules() {
    let mut scope = Scope::new();
    assert!(scope.insert_var(1, true));
    assert!(!scope.insert_var(1, false));
    assert_eq!(scope.local, 2);
    let mut inner = scope.child(SubState::WithLoop);
    assert_eq!(inner.level, 1);
    assert_eq!(inner.loop_alloc, Some(0));
    assert!(inner.insert_var(1, true));
    assert_eq!(inner.loop_alloc, Some(1));
    let func = scope.child(SubState::InFunc);
    assert_eq!(func.loop_alloc, None);
    assert_eq!(func.fnc_alloc, Some(0));
    assert!(scope.in_first_pass() && scope.in_second_pass());
    scope.lam_pass = Some(LamPass::Second);
    assert!(!scope.in_first_pass() && scope.in_second_pass());
}

#[test]
fn scope_imports_may_be_shadowed() {
    let mut scope = Scope::new();
    assert!(scope.import_function(5, 0, 0));
    assert!(scope.insert_var(5, true));
    assert!(scope.insert_fn(6, 0, None));
    assert!(!scope.insert_fn(6, 1, None));
    let mut inner = scope.child(SubState::NoChange);
    assert!(!inner.insert_fn(7, 0, None));
}

#[test]
fn scope_captures_through_lambdas() {
    let mut scope = Scope::new();
    let mut caps = CaptureStack::new();
    scope.insert_mut(3);
    caps.add(1);
    assert!(scope.has(3, &mut caps));
    assert!(scope.is_captured(3));
    assert!(!scope.has(4, &mut caps));
    assert!(scope.has_editable(3, &mut caps));
    assert_eq!(caps.pop(), vec![3]);
    assert_eq!(caps.pop(), Vec::<usize>::new());
    assert!(scope.take_captured(3));
    assert!(!scope.take_captured(3));
    scope.insert_const(8);
    assert!(scope.prop_check(8));
    assert!(!scope.prop_check_mut(8));
}

#[test]
fn capture_stack_records_outer_names_once() {
    let mut caps = CaptureStack::new();
    caps.add(2);
    caps.add(4);
    assert!(caps.check_ref(10, 3));
    assert!(caps.check_ref(10, 1));
    assert!(caps.check_ref(11, 1));
    assert!(!caps.check_ref(12, 5));
    assert_eq!(caps.pop(), vec![10, 11]);
    assert_eq!(caps.pop(), vec![10, 11]);
}

#[test]
fn parameters_helpers() {
    let mut p = Parameters::new();
    assert!(p.try_add(4));
    assert!(p.try_add(5));
    assert!(!p.try_add(4));
    p.vardic = Some(Param { name: 9, captured: false });
    assert!(p.contains(9));
    assert!(!p.contains(6));
    assert_eq!(p.all_params(), vec![4, 5, 9]);
    assert!(MemSlot::<usize, GribValue>::Value(GribValue::Nil).is_value());
    assert!(!MemSlot::<usize, GribValue>::Captured(0).is_value());
}

#[test]
fn hash_values_set_get_and_delete() {
    let k1 = GribKey { hash: 11, string: GribString::Static("a") };
    let k2 = GribKey { hash: 22, string: GribString::Static("b") };
    let mut h = HashValue::new(true);
    assert!(h.is_empty());
    assert!(h.try_set(&k1, GribValue::Bool(true)).is_none());
    assert!(h.try_set(&k2, GribValue::Nil).is_none());
    assert!(h.try_set(&k1, GribValue::Bool(false)).is_none());
    assert_eq!(h.values.len(), 2);
    assert!(matches!(h.get_property(&k1), Some(HashPropertyValue::Value(GribValue::Bool(false)))));
    assert_eq!(h.keys().len(), 2);
    h.init_value(
        GribKey { hash: 33, string: GribString::Static("len") },
        HashPropertyValue::AutoProp { get: None, set: Some(grib::runtime::values::AccessFunc::Captured(4)) },
    );
    let setter = h.try_set(&GribKey { hash: 33, string: GribString::Static("len") }, GribValue::Nil);
    assert!(matches!(setter, Some(grib::runtime::values::AccessFunc::Captured(4))));
    h.delete_key(&k2);
    assert!(h.get_property(&k2).is_none());
    assert!(matches!(h.get_property(&k1), Some(HashPropertyValue::Value(GribValue::Bool(false)))));
    assert_eq!(h.values.len(), 2);
    h.freeze();
    assert!(!h.is_mutable());
    assert!(h.try_set(&GribKey { hash: 44, string: GribString::Char('z') }, GribValue::Nil).is_none());
    assert_eq!(h.values.len(), 2);
    assert!(h.try_set(&k1, GribValue::Bool(true)).is_none());
    assert!(matches!(h.get_property(&k1), Some(HashPropertyValue::Value(GribValue::Bool(false)))));
}

#[test]
fn value_truthiness_and_equality() {
    let program = grib::ast::parsing::ast(grib::lex::lex("im a = \"hello\";").unwrap()).unwrap();
    let gc = Gc::new();
    let hello = program.strings.iter().position(|s| s == "hello").unwrap();
    let stored = GribValue::String(GribString::Stored(hello));
    assert!(stored.truthy(&program, &gc));
    assert!(!GribValue::String(GribString::Static("")).truthy(&program, &gc));
    assert!(!GribValue::Number(0.0f64.to_bits()).truthy(&program, &gc));
    assert!(!GribValue::Number((-0.0f64).to_bits()).truthy(&program, &gc));
    assert!(GribValue::Number(f64::NAN.to_bits()).truthy(&program, &gc));
    assert!(GribValue::Number(2.5f64.to_bits()).truthy(&program, &gc));
    assert!(!GribValue::Nil.truthy(&program, &gc));
    assert!(!GribValue::err("e").truthy(&program, &gc));
    assert!(stored.exact_equals(&GribValue::String(GribString::Static("hello")), &program, &gc));
    assert!(!stored.exact_equals(&GribValue::String(GribString::Char('h')), &program, &gc));
    let nan = GribValue::Number(f64::NAN.to_bits());
    assert!(!nan.exact_equals(&nan, &program, &gc));
    assert!(GribValue::Number(0.0f64.to_bits()).exact_equals(&GribValue::Number((-0.0f64).to_bits()), &program, &gc));
    assert!(!GribValue::Nil.exact_equals(&GribValue::Bool(false), &program, &gc));
}

#[test]
fn variables_read_back_what_was_written() {
    let mut rt = Runtime::new(RuntimeConfig { cleanup_after: 100 });
    rt.stack.add(MemSlot::Value(GribValue::Bool(true)));
    rt.add_stack_captured(GribValue::Nil);
    assert!(matches!(rt.read_val(0), Some(GribValue::Bool(true))));
    assert!(matches!(rt.read_val(1), Some(GribValue::Nil)));
    assert!(rt.read_val(2).is_none());
    rt.write_val(0, GribValue::Bool(false));
    rt.write_val(1, GribValue::Bool(true));
    assert!(matches!(rt.read_val(0), Some(GribValue::Bool(false))));
    assert!(matches!(rt.read_val(1), Some(GribValue::Bool(true))));
    match rt.stack.stack[1] {
        MemSlot::Captured(p) => assert!(matches!(rt.gc.heap[p].value, Some(MemSlot::Captured(GribValue::Bool(true))))),
        ref other => panic!("unexpected {:?}", other),
    }
    rt.write_val(7, GribValue::Nil);
    assert_eq!(rt.stack.len(), 2);
}

#[test]
fn alloc_str_keeps_multibyte_character_on_heap() {
    let mut rt = Runtime::new(RuntimeConfig { cleanup_after: 100 });
    match rt.alloc_str("é".to_string()) {
        GribString::Heap(i) => assert_eq!(heap_string(&rt, i), Some("é".to_string())),
        other => panic!("unexpected {:?}", other),
    }
}

#[test]
fn second_collection_frees_nothing_more() {
    let mut rt = Runtime::new(RuntimeConfig { cleanup_after: 100 });
    rt.alloc_heap(HeapValue::String("garbage".to_string()));
    rt.alloc_heap(HeapValue::String("more".to_string()));
    rt.clean();
    assert_eq!(rt.free_pointers, vec![0, 1]);
    rt.clean();
    assert_eq!(rt.free_pointers, vec![0, 1]);
    let a = rt.alloc_heap(HeapValue::String("a".to_string()));
    let b = rt.alloc_heap(HeapValue::String("b".to_string()));
    assert_ne!(a, b);
}

#[test]
fn allocation_leaves_other_slots_alone() {
    let mut rt = Runtime::new(RuntimeConfig { cleanup_after: 100 });
    let a = rt.alloc_heap(HeapValue::String("first".to_string()));
    let b = rt.alloc_heap(HeapValue::String("second".to_string()));
    assert_ne!(a, b);
    assert_eq!(heap_string(&rt, a), Some("first".to_string()));
    let before = rt.gc.heap.len();
    assert_eq!(rt.alloc_str("x".to_string()), GribString::Char('x'));
    assert_eq!(rt.gc.heap.len(), before);
}

#[test]
fn captured_parameters_survive_collections() {
    let mut rt = Runtime::new(RuntimeConfig { cleanup_after: 0 });
    rt.alloc_heap(HeapValue::String("garbage".to_string()));
    rt.alloc_heap(HeapValue::String("more".to_string()));
    let params = Parameters {
        params: vec![Param { name: 0, captured: true }, Param { name: 1, captured: true }],
        vardic: None,
    };
    let one = GribValue::Number(1.0f64.to_bits());
    let two = GribValue::Number(2.0f64.to_bits());
    assert_eq!(rt.add_params(&params, vec![one, two]), 2);
    let mut seen = Vec::new();
    for k in 0..2 {
        match rt.stack.stack[k] {
            MemSlot::Captured(i) => {
                seen.push(i);
                let want = if k == 0 { 1.0 } else { 2.0 };
                assert!(matches!(rt.gc.get_captured(i), GribValue::Number(b) if f64::from_bits(*b) == want));
            }
            ref other => panic!("unexpected {:?}", other),
        }
    }
    assert_ne!(seen[0], seen[1]);
}
