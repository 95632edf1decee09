use crate::runtime::heap::Gc;
use crate::runtime::slot::{HeapSlot, MarkedSlot, Markable, MemSlot, StackSlot};
use crate::runtime::values::{AccessFunc, Callable, GribKey, GribString, GribValue, HashPropertyValue, HeapValue};
use vstd::prelude::*;

verus! {

/// The heap slots a value points to.
pub open spec fn value_ptrs(v: GribValue) -> Seq<usize> {
    match v {
        GribValue::HeapValue(i) => seq![i],
        GribValue::String(GribString::Heap(i)) => seq![i],
        GribValue::Callable(Callable::Lambda { binding, stack, .. }) => {
            let b = match binding {
                Some(i) => seq![i],
                None => Seq::empty(),
            };
            let s = match stack {
                Some(i) => seq![i],
                None => Seq::empty(),
            };
            b + s
        },
        _ => Seq::empty(),
    }
}

/// The heap slots a list of values points to, in order.
pub open spec fn values_ptrs(a: Seq<GribValue>) -> Seq<usize>
    decreases a.len(),
{
    if a.len() == 0 {
        Seq::empty()
    } else {
        values_ptrs(a.drop_last()) + value_ptrs(a.last())
    }
}

/// The heap slots a stack cell points to.
pub open spec fn stack_slot_ptrs(s: StackSlot) -> Seq<usize> {
    match s {
        MemSlot::Captured(i) => seq![i],
        MemSlot::Value(v) => value_ptrs(v),
    }
}

/// The heap slots a list of stack cells points to, in order.
pub open spec fn stack_ptrs(a: Seq<StackSlot>) -> Seq<usize>
    decreases a.len(),
{
    if a.len() == 0 {
        Seq::empty()
    } else {
        stack_ptrs(a.drop_last()) + stack_slot_ptrs(a.last())
    }
}

/// The heap slots an auto-property function points to.
pub open spec fn access_ptrs(f: AccessFunc) -> Seq<usize> {
    match f {
        AccessFunc::Captured(i) => seq![i],
        AccessFunc::Callable { stack, .. } => match stack {
            Some(i) => seq![i],
            None => Seq::empty(),
        },
        AccessFunc::Static(v) => value_ptrs(v),
    }
}

/// The heap slots one entry of a hash points to: its key and its value.
pub open spec fn entry_ptrs(e: (GribKey, HashPropertyValue)) -> Seq<usize> {
    let key = value_ptrs(GribValue::String(e.0.string));
    let val = match e.1 {
        HashPropertyValue::Value(v) => value_ptrs(v),
        HashPropertyValue::AutoProp { get, set } => {
            let g = match get {
                Some(f) => access_ptrs(f),
                None => Seq::empty(),
            };
            let s = match set {
                Some(f) => access_ptrs(f),
                None => Seq::empty(),
            };
            g + s
        },
    };
    key + val
}

/// The heap slots the entries of a hash point to, in order.
pub open spec fn entries_ptrs(a: Seq<(GribKey, HashPropertyValue)>) -> Seq<usize>
    decreases a.len(),
{
    if a.len() == 0 {
        Seq::empty()
    } else {
        entries_ptrs(a.drop_last()) + entry_ptrs(a.last())
    }
}

/// The heap slots a heap cell points to.
pub open spec fn slot_ptrs(s: HeapSlot) -> Seq<usize> {
    match s {
        MemSlot::Captured(v) => value_ptrs(v),
        MemSlot::Value(HeapValue::Array(a)) => values_ptrs(a@),
        MemSlot::Value(HeapValue::CapturedStack(st)) => stack_ptrs(st@),
        MemSlot::Value(HeapValue::Hash(h)) => entries_ptrs(h.values@),
        MemSlot::Value(HeapValue::String(_)) => Seq::empty(),
    }
}

/// What the heap holds, without the marks.
pub open spec fn heap_values(h: Seq<MarkedSlot>) -> Seq<Option<HeapSlot>> {
    h.map_values(|m: MarkedSlot| m.value)
}

/// Whether slot `i` holds a cell.
pub open spec fn live(vals: Seq<Option<HeapSlot>>, i: usize) -> bool {
    i < vals.len() && vals[i as int] is Some
}

/// Whether the cell in slot `a` points to slot `b`.
pub open spec fn edge(vals: Seq<Option<HeapSlot>>, a: usize, b: usize) -> bool {
    live(vals, a) && slot_ptrs(vals[a as int]->0).contains(b)
}

/// A chain of slots, each pointing to the next.
pub open spec fn path_ok(vals: Seq<Option<HeapSlot>>, path: Seq<usize>) -> bool {
    &&& path.len() > 0
    &&& forall|k: int| #![trigger path[k]] 0 <= k < path.len() - 1 ==> edge(vals, path[k], path[k + 1])
}

/// Whether slot `x` can be reached from slot `a` by following pointers.
pub open spec fn reach(vals: Seq<Option<HeapSlot>>, a: usize, x: usize) -> bool {
    exists|path: Seq<usize>| #[trigger] path_ok(vals, path) && path[0] == a && path.last() == x
}

/// Whether slot `x` can be reached from what the stack points to.
pub open spec fn reachable(vals: Seq<Option<HeapSlot>>, stack: Seq<StackSlot>, x: usize) -> bool {
    exists|r: usize| #[trigger] stack_ptrs(stack).contains(r) && reach(vals, r, x)
}

/// How many heap slots are not marked.
pub open spec fn unmarked(h: Seq<MarkedSlot>) -> nat
    decreases h.len(),
{
    if h.len() == 0 {
        0
    } else {
        unmarked(h.drop_last()) + (if h.last().marked { 0nat } else { 1nat })
    }
}

/// Marks only grow, and the cells stay as they are.
pub open spec fn marks_grow(old: Seq<MarkedSlot>, new: Seq<MarkedSlot>) -> bool {
    &&& new.len() == old.len()
    &&& forall|i: int| 0 <= i < old.len() ==> #[trigger] new[i].value == old[i].value
    &&& forall|i: int| 0 <= i < old.len() && old[i].marked ==> #[trigger] new[i].marked
}

/// Slot `i` was marked between `old` and `new`.
pub open spec fn newly_marked(old: Seq<MarkedSlot>, new: Seq<MarkedSlot>, i: usize) -> bool {
    &&& i < new.len()
    &&& i < old.len()
    &&& new[i as int].marked
    &&& !old[i as int].marked
}

/// Every cell that the cell in slot `i` points to is marked in `new`.
pub open spec fn children_marked(vals: Seq<Option<HeapSlot>>, new: Seq<MarkedSlot>, i: usize) -> bool {
    forall|c: usize| #[trigger] edge(vals, i, c) && live(vals, c) ==> new[c as int].marked
}

pub proof fn lemma_unmarked_grow(old: Seq<MarkedSlot>, new: Seq<MarkedSlot>)
    requires
        new.len() == old.len(),
        forall|i: int| 0 <= i < old.len() && old[i].marked ==> #[trigger] new[i].marked,
    ensures
        unmarked(new) <= unmarked(old),
    decreases old.len(),
{
    if old.len() > 0 {
        lemma_unmarked_grow(old.drop_last(), new.drop_last());
    }
}

pub proof fn lemma_unmarked_mark(h: Seq<MarkedSlot>, i: int, m: MarkedSlot)
    requires
        0 <= i < h.len(),
        !h[i].marked,
        m.marked,
    ensures
        unmarked(h.update(i, m)) + 1 == unmarked(h),
    decreases h.len(),
{
    if i == h.len() - 1 {
        assert(h.update(i, m).drop_last() =~= h.drop_last());
    } else {
        assert(h.update(i, m).drop_last() =~= h.drop_last().update(i, m));
        lemma_unmarked_mark(h.drop_last(), i, m);
    }
}

/// A slot reaches what the slots it points to reach.
pub proof fn lemma_reach_step(vals: Seq<Option<HeapSlot>>, a: usize, c: usize, x: usize)
    requires
        edge(vals, a, c),
        reach(vals, c, x),
    ensures
        reach(vals, a, x),
{
    let path = choose|path: Seq<usize>| #[trigger] path_ok(vals, path) && path[0] == c && path.last() == x;
    let p2 = seq![a] + path;
    assert forall|k: int| #![trigger p2[k]] 0 <= k < p2.len() - 1 implies edge(vals, p2[k], p2[k + 1]) by {
        if k == 0 {
            assert(p2[1] == c);
        } else {
            assert(p2[k] == path[k - 1]);
            assert(p2[k + 1] == path[k]);
            assert(edge(vals, path[k - 1], path[(k - 1) + 1]));
        }
    }
    assert(path_ok(vals, p2));
    assert(p2.last() == x);
}

pub proof fn lemma_reach_refl(vals: Seq<Option<HeapSlot>>, a: usize)
    ensures
        reach(vals, a, a),
{
    let p = seq![a];
    assert(path_ok(vals, p));
}

/// The heap slots a value points to, appended to `out`.
pub fn push_value_ptrs(v: &GribValue, out: &mut Vec<usize>)
    ensures
        final(out)@ == old(out)@ + value_ptrs(*v),
{
    match v {
        GribValue::HeapValue(i) => out.push(*i),
        GribValue::String(GribString::Heap(i)) => out.push(*i),
        GribValue::Callable(Callable::Lambda { binding, stack, .. }) => {
            match binding {
                Some(i) => out.push(*i),
                None => {},
            }
            match stack {
                Some(i) => out.push(*i),
                None => {},
            }
        },
        _ => {},
    }
    proof {
        assert(out@ =~= old(out)@ + value_ptrs(*v));
    }
}

fn push_access_ptrs(f: &AccessFunc, out: &mut Vec<usize>)
    ensures
        final(out)@ == old(out)@ + access_ptrs(*f),
{
    match f {
        AccessFunc::Captured(i) => out.push(*i),
        AccessFunc::Callable { stack, .. } => match stack {
            Some(i) => out.push(*i),
            None => {},
        },
        AccessFunc::Static(v) => push_value_ptrs(v, out),
    }
    proof {
        assert(out@ =~= old(out)@ + access_ptrs(*f));
    }
}

/// The heap slots a heap cell points to.
pub fn slot_children(s: &HeapSlot) -> (v: Vec<usize>)
    ensures
        v@ == slot_ptrs(*s),
{
    let mut out: Vec<usize> = Vec::new();
    match s {
        MemSlot::Captured(v) => push_value_ptrs(v, &mut out),
        MemSlot::Value(HeapValue::Array(a)) => {
            let mut i: usize = 0;
            while i < a.len()
                invariant
                    i <= a@.len(),
                    out@ == values_ptrs(a@.take(i as int)),
                decreases a@.len() - i,
            {
                proof {
                    assert(a@.take(i + 1).drop_last() =~= a@.take(i as int));
                }
                push_value_ptrs(&a[i], &mut out);
                i = i + 1;
            }
            proof {
                assert(a@.take(i as int) =~= a@);
            }
        },
        MemSlot::Value(HeapValue::CapturedStack(st)) => {
            let mut i: usize = 0;
            while i < st.len()
                invariant
                    i <= st@.len(),
                    out@ == stack_ptrs(st@.take(i as int)),
                decreases st@.len() - i,
            {
                proof {
                    assert(st@.take(i + 1).drop_last() =~= st@.take(i as int));
                }
                match &st[i] {
                    MemSlot::Captured(p) => out.push(*p),
                    MemSlot::Value(v) => push_value_ptrs(v, &mut out),
                }
                proof {
                    assert(out@ =~= stack_ptrs(st@.take(i + 1)));
                }
                i = i + 1;
            }
            proof {
                assert(st@.take(i as int) =~= st@);
            }
        },
        MemSlot::Value(HeapValue::Hash(h)) => {
            let mut i: usize = 0;
            while i < h.values.len()
                invariant
                    i <= h.values@.len(),
                    out@ == entries_ptrs(h.values@.take(i as int)),
                decreases h.values@.len() - i,
            {
                proof {
                    assert(h.values@.take(i + 1).drop_last() =~= h.values@.take(i as int));
                }
                let ghost before = out@;
                let key = GribValue::String(h.values[i].0.string);
                push_value_ptrs(&key, &mut out);
                match &h.values[i].1 {
                    HashPropertyValue::Value(v) => push_value_ptrs(v, &mut out),
                    HashPropertyValue::AutoProp { get, set } => {
                        match get {
                            Some(f) => push_access_ptrs(f, &mut out),
                            None => {},
                        }
                        match set {
                            Some(f) => push_access_ptrs(f, &mut out),
                            None => {},
                        }
                    },
                }
                proof {
                    assert(out@ =~= before + entry_ptrs(h.values@[i as int]));
                }
                i = i + 1;
            }
            proof {
                assert(h.values@.take(i as int) =~= h.values@);
            }
        },
        MemSlot::Value(HeapValue::String(_)) => {},
    }
    out
}

/// Marks the heap slot `ind` and, depth first, everything it reaches that
/// is not marked yet.  Empty and marked slots, and indices past the heap,
/// are left alone.
pub fn mark_heap(gc: &mut Gc, ind: usize)
    ensures
        marks_grow(old(gc).heap@, final(gc).heap@),
        live(heap_values(old(gc).heap@), ind) ==> final(gc).heap@[ind as int].marked,
        forall|i: usize| #[trigger] newly_marked(old(gc).heap@, final(gc).heap@, i) ==> {
            &&& live(heap_values(old(gc).heap@), i)
            &&& reach(heap_values(old(gc).heap@), ind, i)
            &&& children_marked(heap_values(old(gc).heap@), final(gc).heap@, i)
        },
    decreases unmarked(old(gc).heap@),
{
    if ind >= gc.heap.len() {
        return;
    }
    if gc.heap[ind].marked {
        return;
    }
    let children = match &gc.heap[ind].value {
        None => return,
        Some(s) => slot_children(s),
    };
    let ghost h0 = gc.heap@;
    let ghost vals = heap_values(h0);
    proof {
        lemma_unmarked_mark(h0, ind as int, Markable { value: h0[ind as int].value, marked: true });
        lemma_reach_refl(vals, ind);
    }
    gc.heap[ind].marked = true;
    proof {
        assert(gc.heap@ =~= h0.update(ind as int, Markable { value: h0[ind as int].value, marked: true }));
    }
    let mut k: usize = 0;
    while k < children.len()
        invariant
            h0 == old(gc).heap@,
            vals == heap_values(h0),
            live(vals, ind),
            children@ == slot_ptrs(vals[ind as int]->0),
            k <= children@.len(),
            marks_grow(h0, gc.heap@),
            gc.heap@[ind as int].marked,
            unmarked(gc.heap@) < unmarked(h0),
            forall|j: int| 0 <= j < k && live(vals, #[trigger] children@[j]) ==> gc.heap@[children@[j] as int].marked,
            forall|i: usize| #[trigger] newly_marked(h0, gc.heap@, i) ==> {
                &&& live(vals, i)
                &&& reach(vals, ind, i)
                &&& i != ind ==> children_marked(vals, gc.heap@, i)
            },
        decreases children@.len() - k,
    {
        let ghost before = gc.heap@;
        let c = children[k];
        assert(edge(vals, ind, c)) by {
            assert(slot_ptrs(vals[ind as int]->0)[k as int] == c);
        }
        assert(heap_values(before) =~= vals) by {
            assert forall|i: int| 0 <= i < before.len() implies heap_values(before)[i] == vals[i] by {}
        }
        mark_heap(gc, c);
        proof {
            lemma_unmarked_grow(before, gc.heap@);
            let after = gc.heap@;
            assert forall|i: usize| #[trigger] newly_marked(h0, after, i) implies {
                &&& live(vals, i)
                &&& reach(vals, ind, i)
                &&& i != ind ==> children_marked(vals, after, i)
            } by {
                if newly_marked(before, after, i) {
                    lemma_reach_step(vals, ind, c, i);
                } else {
                    assert(newly_marked(h0, before, i));
                    if i != ind {
                        assert forall|c2: usize| #[trigger] edge(vals, i, c2) && live(vals, c2) implies after[c2 as int].marked by {
                            assert(before[c2 as int].marked);
                        }
                    }
                }
            }
        }
        k = k + 1;
    }
    proof {
        assert forall|c: usize| #[trigger] edge(vals, ind, c) && live(vals, c) implies gc.heap@[c as int].marked by {
            let j = choose|j: int| 0 <= j < children@.len() && children@[j] == c;
        }
        assert(children_marked(vals, gc.heap@, ind));
    }
}

/// Marks what a value points to.
pub fn mark_stack(gc: &mut Gc, obj: &GribValue)
    ensures
        marks_grow(old(gc).heap@, final(gc).heap@),
        forall|p: usize| #[trigger] value_ptrs(*obj).contains(p) && live(heap_values(old(gc).heap@), p) ==> final(gc).heap@[p as int].marked,
        forall|i: usize| #[trigger] newly_marked(old(gc).heap@, final(gc).heap@, i) ==> {
            &&& live(heap_values(old(gc).heap@), i)
            &&& exists|p: usize| #[trigger] value_ptrs(*obj).contains(p) && reach(heap_values(old(gc).heap@), p, i)
            &&& children_marked(heap_values(old(gc).heap@), final(gc).heap@, i)
        },
{
    let mut ptrs: Vec<usize> = Vec::new();
    push_value_ptrs(obj, &mut ptrs);
    mark_all(gc, &ptrs);
}

/// Marks what a callable points to.
pub fn mark_function(gc: &mut Gc, fnc: &Callable)
    ensures
        marks_grow(old(gc).heap@, final(gc).heap@),
        forall|p: usize| #[trigger] value_ptrs(GribValue::Callable(*fnc)).contains(p) && live(heap_values(old(gc).heap@), p) ==> final(gc).heap@[p as int].marked,
        forall|i: usize| #[trigger] newly_marked(old(gc).heap@, final(gc).heap@, i) ==> {
            &&& live(heap_values(old(gc).heap@), i)
            &&& exists|p: usize| #[trigger] value_ptrs(GribValue::Callable(*fnc)).contains(p) && reach(heap_values(old(gc).heap@), p, i)
            &&& children_marked(heap_values(old(gc).heap@), final(gc).heap@, i)
        },
{
    let v = GribValue::Callable(*fnc);
    mark_stack(gc, &v);
}

/// Marks from each of the given slots in turn.
pub fn mark_all(gc: &mut Gc, ptrs: &Vec<usize>)
    ensures
        marks_grow(old(gc).heap@, final(gc).heap@),
        forall|p: usize| #[trigger] ptrs@.contains(p) && live(heap_values(old(gc).heap@), p) ==> final(gc).heap@[p as int].marked,
        forall|i: usize| #[trigger] newly_marked(old(gc).heap@, final(gc).heap@, i) ==> {
            &&& live(heap_values(old(gc).heap@), i)
            &&& exists|p: usize| #[trigger] ptrs@.contains(p) && reach(heap_values(old(gc).heap@), p, i)
            &&& children_marked(heap_values(old(gc).heap@), final(gc).heap@, i)
        },
{
    let ghost h0 = gc.heap@;
    let ghost vals = heap_values(h0);
    let mut k: usize = 0;
    while k < ptrs.len()
        invariant
            h0 == old(gc).heap@,
            vals == heap_values(h0),
            k <= ptrs@.len(),
            marks_grow(h0, gc.heap@),
            forall|j: int| 0 <= j < k && live(vals, #[trigger] ptrs@[j]) ==> gc.heap@[ptrs@[j] as int].marked,
            forall|i: usize| #[trigger] newly_marked(h0, gc.heap@, i) ==> {
                &&& live(vals, i)
                &&& exists|p: usize| #[trigger] ptrs@.contains(p) && reach(vals, p, i)
                &&& children_marked(vals, gc.heap@, i)
            },
        decreases ptrs@.len() - k,
    {
        let ghost before = gc.heap@;
        let p = ptrs[k];
        assert(heap_values(before) =~= vals) by {
            assert forall|i: int| 0 <= i < before.len() implies heap_values(before)[i] == vals[i] by {}
        }
        mark_heap(gc, p);
        proof {
            let after = gc.heap@;
            assert forall|i: usize| #[trigger] newly_marked(h0, after, i) implies {
                &&& live(vals, i)
                &&& exists|q: usize| #[trigger] ptrs@.contains(q) && reach(vals, q, i)
                &&& children_marked(vals, after, i)
            } by {
                if newly_marked(before, after, i) {
                    assert(ptrs@[k as int] == p);
                    assert(ptrs@.contains(p));
                } else {
                    assert(newly_marked(h0, before, i));
                    assert forall|c2: usize| #[trigger] edge(vals, i, c2) && live(vals, c2) implies after[c2 as int].marked by {
                        assert(before[c2 as int].marked);
                    }
                }
            }
        }
        k = k + 1;
    }
    proof {
        assert forall|p: usize| #[trigger] ptrs@.contains(p) && live(vals, p) implies gc.heap@[p as int].marked by {
            let j = choose|j: int| 0 <= j < ptrs@.len() && ptrs@[j] == p;
        }
    }
}

} // verus!
