use crate::ast::node::{Param, Parameters};
use crate::runtime::heap::{clone_value, Gc};
use crate::runtime::mark::{
    children_marked, edge, heap_values, live, mark_heap, mark_stack, marks_grow, newly_marked, path_ok, reach,
    reachable, stack_ptrs, stack_slot_ptrs,
};
use crate::runtime::slot::{HeapSlot, MarkedSlot, Markable, MemSlot, RuntimeConfig, StackSlot};
use crate::runtime::stack::{clone_slot, Stack, STACK_SIZE};
use crate::runtime::values::{GribString, GribValue, HeapValue};
use crate::text::str_chars;
use vstd::prelude::*;

verus! {

/// Whether the cell in slot `i` survives a collection: it holds a cell that
/// can be reached from the stack.
pub open spec fn kept(vals: Seq<Option<HeapSlot>>, stack: Seq<StackSlot>, i: usize) -> bool {
    reachable(vals, stack, i) && live(vals, i)
}

/// The slots below `n` that a collection frees, in increasing order: those
/// that held a cell that the stack does not reach.
pub open spec fn freed(vals: Seq<Option<HeapSlot>>, stack: Seq<StackSlot>, n: nat) -> Seq<usize>
    decreases n,
{
    if n == 0 {
        Seq::empty()
    } else if kept(vals, stack, (n - 1) as usize) || !live(vals, (n - 1) as usize) {
        freed(vals, stack, (n - 1) as nat)
    } else {
        freed(vals, stack, (n - 1) as nat).push((n - 1) as usize)
    }
}

/// What the heap holds after a collection with the given stack.
pub open spec fn collected(vals: Seq<Option<HeapSlot>>, stack: Seq<StackSlot>) -> Seq<Option<HeapSlot>> {
    Seq::new(vals.len(), |i: int| if kept(vals, stack, i as usize) { vals[i] } else { None })
}

/// Whether `new` is the runtime `old` after taking slot `ind` for `value`:
/// when enough allocations were made since the last collection, first a
/// collection (with its slots put on the free list); then the last free
/// slot is reused, or a slot added at the end when none is free.  Every other
/// slot keeps its content, and the stack is untouched.
pub open spec fn allocated(old: Runtime, new: Runtime, ind: usize, value: Option<HeapSlot>) -> bool {
    let cleans = old.allocations > old.max_allocations;
    let vals = heap_values(old.gc.heap@);
    let vals1 = if cleans { collected(vals, old.stack.cells()) } else { vals };
    let free1 = if cleans { old.free_pointers@ + freed(vals, old.stack.cells(), vals.len()) } else { old.free_pointers@ };
    &&& new.stack == old.stack
    &&& new.max_allocations == old.max_allocations
    &&& free1.len() > 0 ==> ind == free1.last() && heap_values(new.gc.heap@) == vals1.update(ind as int, value)
        && new.free_pointers@ == free1.drop_last()
    &&& free1.len() == 0 ==> ind == vals1.len() && heap_values(new.gc.heap@) == vals1.push(value)
        && new.free_pointers@ == free1
}

/// The value of the variable in stack cell `index`: the cell's own value,
/// or the one its captured heap cell holds.
pub open spec fn variable_value(stack: Seq<StackSlot>, heap: Seq<MarkedSlot>, index: int) -> Option<GribValue> {
    if 0 <= index < stack.len() {
        match stack[index] {
            MemSlot::Value(v) => Some(v),
            MemSlot::Captured(p) => if p < heap.len() {
                match heap[p as int].value {
                    Some(MemSlot::Captured(v)) => Some(v),
                    _ => None,
                }
            } else {
                None
            },
        }
    } else {
        None
    }
}

/// Each slot on a path from a slot reachable from the stack is reachable too.
pub proof fn lemma_path_prefix_reachable(
    vals: Seq<Option<HeapSlot>>,
    stack: Seq<StackSlot>,
    path: Seq<usize>,
    k: int,
)
    requires
        path_ok(vals, path),
        stack_ptrs(stack).contains(path[0]),
        0 <= k < path.len(),
    ensures
        reachable(vals, stack, path[k]),
{
    let pre = path.take(k + 1);
    assert forall|j: int| #![trigger pre[j]] 0 <= j < pre.len() - 1 implies edge(vals, pre[j], pre[j + 1]) by {
        assert(pre[j] == path[j]);
        assert(pre[j + 1] == path[j + 1]);
    }
    assert(path_ok(vals, pre));
    assert(pre.last() == path[k]);
}

/// A heap in which every slot is kept or empty gives nothing to free.
proof fn lemma_freed_none(vals: Seq<Option<HeapSlot>>, stack: Seq<StackSlot>, n: nat)
    requires
        n <= vals.len(),
        forall|i: int| 0 <= i < n ==> #[trigger] kept(vals, stack, i as usize) || !live(vals, i as usize),
    ensures
        freed(vals, stack, n) == Seq::<usize>::empty(),
    decreases n,
{
    if n > 0 {
        assert(kept(vals, stack, (n - 1) as usize) || !live(vals, (n - 1) as usize));
        lemma_freed_none(vals, stack, (n - 1) as nat);
    }
}

/// Collecting twice with the same stack changes nothing more than collecting
/// once: a collection keeps exactly what is reachable, and what it keeps
/// stays reachable; the second one puts no slot on the free list.
pub proof fn lemma_collect_idempotent(vals: Seq<Option<HeapSlot>>, stack: Seq<StackSlot>)
    ensures
        collected(collected(vals, stack), stack) == collected(vals, stack),
        freed(collected(vals, stack), stack, vals.len()) == Seq::<usize>::empty(),
{
    let c = collected(vals, stack);
    assert forall|i: int| 0 <= i < vals.len() implies #[trigger] kept(c, stack, i as usize) == kept(vals, stack, i as usize) by {
        let x = i as usize;
        if kept(vals, stack, x) {
            let r = choose|r: usize| #[trigger] stack_ptrs(stack).contains(r) && reach(vals, r, x);
            let path = choose|path: Seq<usize>| #[trigger] path_ok(vals, path) && path[0] == r && path.last() == x;
            assert forall|k: int| #![trigger path[k]] 0 <= k < path.len() - 1 implies edge(c, path[k], path[k + 1]) by {
                assert(edge(vals, path[k], path[k + 1]));
                lemma_path_prefix_reachable(vals, stack, path, k);
                assert(kept(vals, stack, path[k]));
                assert(c[path[k] as int] == vals[path[k] as int]);
            }
            assert(path_ok(c, path));
            assert(reach(c, r, x));
        }
    }
    assert(collected(c, stack) =~= c);
    assert forall|i: int| 0 <= i < vals.len() implies #[trigger] kept(c, stack, i as usize) || !live(c, i as usize) by {
        if !kept(vals, stack, i as usize) {
            assert(c[i] is None);
        }
    }
    lemma_freed_none(c, stack, vals.len());
}

/// A heap cell that a stack cell refers to as captured, and that holds
/// something, survives a collection.
pub proof fn lemma_captured_kept(vals: Seq<Option<HeapSlot>>, stack: Seq<StackSlot>, k: int, p: usize)
    requires
        0 <= k < stack.len(),
        stack[k] == MemSlot::<usize, GribValue>::Captured(p),
        p < vals.len(),
        vals[p as int] is Some,
    ensures
        kept(vals, stack, p),
{
    let t = stack.take(k + 1);
    assert(t.drop_last() =~= stack.take(k));
    assert(t.last() == stack[k]);
    assert(stack_slot_ptrs(stack[k]) == seq![p]);
    assert(stack_ptrs(t) == stack_ptrs(stack.take(k)) + seq![p]);
    assert(stack_ptrs(t)[stack_ptrs(stack.take(k)).len() as int] == p);
    assert(stack_ptrs(t).contains(p));
    lemma_stack_ptrs_prefix(stack, k + 1, p);
    crate::runtime::mark::lemma_reach_refl(vals, p);
}

/// What a pointer of the stack's prefix of length `k` points to, the
/// whole stack points to.
pub proof fn lemma_stack_ptrs_prefix(s: Seq<StackSlot>, k: int, r: usize)
    requires
        0 <= k <= s.len(),
        stack_ptrs(s.take(k)).contains(r),
    ensures
        stack_ptrs(s).contains(r),
    decreases s.len(),
{
    if k == s.len() {
        assert(s.take(k) =~= s);
    } else {
        assert(s.drop_last().take(k) =~= s.take(k));
        lemma_stack_ptrs_prefix(s.drop_last(), k, r);
        assert(stack_ptrs(s) == stack_ptrs(s.drop_last()) + stack_slot_ptrs(s.last()));
        let j = choose|j: int| 0 <= j < stack_ptrs(s.drop_last()).len() && stack_ptrs(s.drop_last())[j] == r;
        assert(stack_ptrs(s)[j] == r);
    }
}

/// Each pointer of the stack comes from one of its cells.
pub proof fn lemma_stack_ptrs_member(s: Seq<StackSlot>, r: usize)
    requires
        stack_ptrs(s).contains(r),
    ensures
        exists|j: int| 0 <= j < s.len() && #[trigger] stack_slot_ptrs(s[j]).contains(r),
    decreases s.len(),
{
    if s.len() > 0 {
        let a = stack_ptrs(s.drop_last());
        let b = stack_slot_ptrs(s.last());
        let i = choose|i: int| 0 <= i < stack_ptrs(s).len() && stack_ptrs(s)[i] == r;
        if i < a.len() {
            assert(a[i] == r);
            lemma_stack_ptrs_member(s.drop_last(), r);
            let j = choose|j: int| 0 <= j < s.drop_last().len() && #[trigger] stack_slot_ptrs(s.drop_last()[j]).contains(r);
            assert(s[j] == s.drop_last()[j]);
        } else {
            assert(b[i - a.len()] == r);
            assert(stack_slot_ptrs(s[s.len() - 1]).contains(r));
        }
    }
}

/// When every root that holds a cell is marked and every marked slot has
/// the cells it points to marked, every cell on a path from a root is
/// marked.
pub proof fn lemma_path_marked(vals: Seq<Option<HeapSlot>>, h: Seq<MarkedSlot>, path: Seq<usize>, k: int)
    requires
        path_ok(vals, path),
        live(vals, path[0]) ==> h[path[0] as int].marked,
        forall|i: usize| i < h.len() && h[i as int].marked ==> #[trigger] children_marked(vals, h, i),
        h.len() == vals.len(),
        0 <= k < path.len(),
        live(vals, path[k]),
    ensures
        h[path[k] as int].marked,
    decreases k,
{
    if k > 0 {
        assert(edge(vals, path[k - 1], path[(k - 1) + 1]));
        lemma_path_marked(vals, h, path, k - 1);
        assert(children_marked(vals, h, path[k - 1]));
    }
}

/// The runtime's memory: the heap, the stack, the slots free for reuse,
/// and the count of allocations since the last collection.
#[derive(Debug)]
pub struct Runtime {
    pub gc: Gc,
    pub stack: Stack,
    pub free_pointers: Vec<usize>,
    pub allocations: usize,
    pub max_allocations: usize,
}

impl Runtime {
    /// Between collections no slot is marked, and every free slot lies in
    /// the heap.
    pub open spec fn wf(&self) -> bool {
        &&& forall|i: int| 0 <= i < self.gc.heap@.len() ==> !(#[trigger] self.gc.heap@[i]).marked
        &&& forall|j: int| 0 <= j < self.free_pointers@.len() ==> #[trigger] self.free_pointers@[j] < self.gc.heap@.len()
    }

    /// Every slot on the free list is empty.
    pub open spec fn free_ok(&self) -> bool {
        forall|j: int| 0 <= j < self.free_pointers@.len() ==>
            (#[trigger] self.gc.heap@[self.free_pointers@[j] as int]).value is None
    }

    /// Every slot on the free list is empty and listed once, so no slot is
    /// handed out twice.
    pub open spec fn free_list_ok(&self) -> bool {
        self.free_ok() && self.free_pointers@.no_duplicates()
    }

    pub fn new(config: RuntimeConfig) -> (r: Self)
        ensures
            r.wf(),
            r.free_ok(),
            r.free_list_ok(),
            r.gc.heap@.len() == 0,
            r.stack.cells().len() == 0,
            r.free_pointers@.len() == 0,
            r.allocations == 0,
            r.max_allocations == config.cleanup_after,
    {
        Runtime {
            gc: Gc::new(),
            stack: Stack::new(),
            free_pointers: Vec::new(),
            allocations: 0,
            max_allocations: config.cleanup_after,
        }
    }

    /// Collects garbage: marks every cell that the stack reaches, empties
    /// every other slot, puts those that held a cell on the free list (in
    /// increasing order), and clears the marks.
    pub fn clean(&mut self)
        requires
            old(self).wf(),
        ensures
            final(self).wf(),
            final(self).gc.heap@.len() == old(self).gc.heap@.len(),
            forall|i: int| 0 <= i < old(self).gc.heap@.len() ==> (#[trigger] final(self).gc.heap@[i]).value == (
                if kept(heap_values(old(self).gc.heap@), old(self).stack.cells(), i as usize) {
                    old(self).gc.heap@[i].value
                } else {
                    None
                }),
            heap_values(final(self).gc.heap@) == collected(heap_values(old(self).gc.heap@), old(self).stack.cells()),
            final(self).free_pointers@ == old(self).free_pointers@ + freed(
                heap_values(old(self).gc.heap@),
                old(self).stack.cells(),
                old(self).gc.heap@.len(),
            ),
            old(self).free_ok() ==> final(self).free_ok(),
            old(self).free_list_ok() ==> final(self).free_list_ok(),
            final(self).stack == old(self).stack,
            final(self).allocations == old(self).allocations,
            final(self).max_allocations == old(self).max_allocations,
    {
        let ghost h0 = self.gc.heap@;
        let ghost vals = heap_values(h0);
        let ghost cells = self.stack.cells();
        let mut k: usize = 0;
        while k < self.stack.stack.len()
            invariant
                h0 == old(self).gc.heap@,
                vals == heap_values(h0),
                cells == self.stack.cells(),
                self.stack == old(self).stack,
                self.free_pointers == old(self).free_pointers,
                self.allocations == old(self).allocations,
                self.max_allocations == old(self).max_allocations,
                forall|i: int| 0 <= i < h0.len() ==> !(#[trigger] h0[i]).marked,
                k <= cells.len(),
                marks_grow(h0, self.gc.heap@),
                forall|j: int, p: usize| 0 <= j < k && #[trigger] stack_slot_ptrs(cells[j]).contains(p) && live(vals, p)
                    ==> self.gc.heap@[p as int].marked,
                forall|i: usize| #[trigger] newly_marked(h0, self.gc.heap@, i) ==> {
                    &&& live(vals, i)
                    &&& exists|r: usize| #[trigger] stack_ptrs(cells.take(k as int)).contains(r) && reach(vals, r, i)
                    &&& children_marked(vals, self.gc.heap@, i)
                },
            decreases cells.len() - k,
        {
            let ghost before = self.gc.heap@;
            assert(heap_values(before) =~= vals) by {
                assert forall|i: int| 0 <= i < before.len() implies heap_values(before)[i] == vals[i] by {}
            }
            match &self.stack.stack[k] {
                MemSlot::Captured(ind) => mark_heap(&mut self.gc, *ind),
                MemSlot::Value(v) => mark_stack(&mut self.gc, v),
            }
            proof {
                let after = self.gc.heap@;
                assert(cells.take(k + 1).drop_last() =~= cells.take(k as int));
                assert(stack_ptrs(cells.take(k + 1)) == stack_ptrs(cells.take(k as int)) + stack_slot_ptrs(cells[k as int]));
                assert forall|i: usize| #[trigger] newly_marked(h0, after, i) implies {
                    &&& live(vals, i)
                    &&& exists|r: usize| #[trigger] stack_ptrs(cells.take(k + 1)).contains(r) && reach(vals, r, i)
                    &&& children_marked(vals, after, i)
                } by {
                    if newly_marked(before, after, i) {
                        match cells[k as int] {
                            MemSlot::Captured(ind) => {
                                assert(stack_slot_ptrs(cells[k as int])[0] == ind);
                                assert(stack_ptrs(cells.take(k + 1))[stack_ptrs(cells.take(k as int)).len() as int] == ind);
                                assert(stack_ptrs(cells.take(k + 1)).contains(ind));
                                assert(reach(vals, ind, i));
                            },
                            MemSlot::Value(v) => {
                                let p = choose|p: usize| #[trigger] crate::runtime::mark::value_ptrs(v).contains(p) && reach(vals, p, i);
                                let q = choose|q: int| 0 <= q < crate::runtime::mark::value_ptrs(v).len() && crate::runtime::mark::value_ptrs(v)[q] == p;
                                assert(stack_ptrs(cells.take(k + 1))[stack_ptrs(cells.take(k as int)).len() + q] == p);
                                assert(stack_ptrs(cells.take(k + 1)).contains(p));
                            },
                        }
                    } else {
                        assert(newly_marked(h0, before, i));
                        let r = choose|r: usize| #[trigger] stack_ptrs(cells.take(k as int)).contains(r) && reach(vals, r, i);
                        let q = choose|q: int| 0 <= q < stack_ptrs(cells.take(k as int)).len() && stack_ptrs(cells.take(k as int))[q] == r;
                        assert(stack_ptrs(cells.take(k + 1))[q] == r);
                        assert(stack_ptrs(cells.take(k + 1)).contains(r));
                        assert forall|c: usize| #[trigger] edge(vals, i, c) && live(vals, c) implies after[c as int].marked by {
                            assert(before[c as int].marked);
                        }
                    }
                }
                assert forall|j: int, p: usize| 0 <= j < k + 1 && #[trigger] stack_slot_ptrs(cells[j]).contains(p) && live(vals, p)
                    implies after[p as int].marked by {
                    if j < k {
                        assert(before[p as int].marked);
                    } else {
                        match cells[k as int] {
                            MemSlot::Captured(ind) => {},
                            MemSlot::Value(v) => {},
                        }
                    }
                }
            }
            k = k + 1;
        }
        let ghost mid = self.gc.heap@;
        proof {
            assert(cells.take(k as int) =~= cells);
            assert forall|i: usize| i < mid.len() implies (#[trigger] mid[i as int]).marked == kept(vals, cells, i) by {
                if mid[i as int].marked {
                    assert(newly_marked(h0, mid, i));
                    let r = choose|r: usize| #[trigger] stack_ptrs(cells.take(k as int)).contains(r) && reach(vals, r, i);
                    assert(stack_ptrs(cells).contains(r));
                } else if kept(vals, cells, i) {
                    let r = choose|r: usize| #[trigger] stack_ptrs(cells).contains(r) && reach(vals, r, i);
                    let path = choose|path: Seq<usize>| #[trigger] path_ok(vals, path) && path[0] == r && path.last() == i;
                    lemma_stack_ptrs_member(cells, r);
                    let j = choose|j: int| 0 <= j < cells.len() && #[trigger] stack_slot_ptrs(cells[j]).contains(r);
                    assert forall|x: usize| x < mid.len() && mid[x as int].marked implies #[trigger] children_marked(vals, mid, x) by {
                        assert(newly_marked(h0, mid, x));
                    }
                    lemma_path_marked(vals, mid, path, path.len() - 1);
                }
            }
        }
        let len = self.gc.heap.len();
        let mut index: usize = 0;
        while index < len
            invariant
                len == mid.len(),
                h0 == old(self).gc.heap@,
                vals == heap_values(h0),
                cells == old(self).stack.cells(),
                self.stack == old(self).stack,
                self.allocations == old(self).allocations,
                self.max_allocations == old(self).max_allocations,
                marks_grow(h0, mid),
                forall|i: usize| i < mid.len() ==> (#[trigger] mid[i as int]).marked == kept(vals, cells, i),
                self.gc.heap@.len() == len,
                index <= len,
                forall|i: int| index <= i < len ==> #[trigger] self.gc.heap@[i] == mid[i],
                forall|i: int| 0 <= i < index ==> (#[trigger] self.gc.heap@[i]) == (Markable {
                    value: if kept(vals, cells, i as usize) { h0[i].value } else { None },
                    marked: false,
                }),
                self.free_pointers@ == old(self).free_pointers@ + freed(vals, cells, index as nat),
                forall|j: int| 0 <= j < old(self).free_pointers@.len() ==> #[trigger] old(self).free_pointers@[j] < len,
            decreases len - index,
        {
            let ghost before = self.gc.heap@;
            if !self.gc.heap[index].marked {
                if self.gc.heap[index].value.is_some() {
                    self.free_pointers.push(index);
                }
                self.gc.remove(index);
            }
            self.gc.heap[index].marked = false;
            proof {
                assert(vals[index as int] == h0[index as int].value);
                assert(freed(vals, cells, (index + 1) as nat) == (if kept(vals, cells, index as usize) || !live(vals, index as usize) {
                    freed(vals, cells, index as nat)
                } else {
                    freed(vals, cells, index as nat).push(index as usize)
                }));
                assert forall|i: int| 0 <= i < len && i != index implies #[trigger] self.gc.heap@[i] == before[i] by {}
            }
            index = index + 1;
        }
        proof {
            assert forall|j: int| 0 <= j < self.free_pointers@.len() implies #[trigger] self.free_pointers@[j] < self.gc.heap@.len() by {
                if j >= old(self).free_pointers@.len() {
                    lemma_freed_bounds(vals, cells, len as nat);
                    assert(freed(vals, cells, len as nat)[j - old(self).free_pointers@.len()] < len);
                }
            }
            assert(heap_values(self.gc.heap@) =~= collected(vals, cells));
            if old(self).free_ok() {
                assert forall|j: int| 0 <= j < self.free_pointers@.len() implies
                    (#[trigger] self.gc.heap@[self.free_pointers@[j] as int]).value is None by {
                    if j >= old(self).free_pointers@.len() {
                        lemma_freed_bounds(vals, cells, len as nat);
                        let p = freed(vals, cells, len as nat)[j - old(self).free_pointers@.len()];
                        assert(!kept(vals, cells, p));
                    } else {
                        let p = old(self).free_pointers@[j];
                        assert(h0[p as int].value is None);
                        assert(!live(vals, p));
                    }
                }
            }
            if old(self).free_list_ok() {
                lemma_freed_bounds(vals, cells, len as nat);
                let o = old(self).free_pointers@;
                let f = freed(vals, cells, len as nat);
                assert(self.free_pointers@ == o + f);
                assert forall|a: int, b: int| 0 <= a < b < self.free_pointers@.len() implies
                    self.free_pointers@[a] != self.free_pointers@[b] by {
                    if b < o.len() {
                        assert(self.free_pointers@[a] == o[a] && self.free_pointers@[b] == o[b]);
                    } else if a >= o.len() {
                        assert(self.free_pointers@[a] == f[a - o.len()] && self.free_pointers@[b] == f[b - o.len()]);
                    } else {
                        let p = o[a];
                        assert(self.free_pointers@[a] == p);
                        assert(h0[p as int].value is None);
                        assert(self.free_pointers@[b] == f[b - o.len()]);
                        assert(live(vals, f[b - o.len()]));
                    }
                }
            }
        }
    }

    /// Takes a slot for `value`: first collecting if enough allocations were
    /// made since the last collection, then reusing the last free slot or
    /// adding one at the end.
    fn alloc_slot(&mut self, value: Option<HeapSlot>) -> (ind: usize)
        requires
            old(self).wf(),
        ensures
            final(self).wf(),
            ind < final(self).gc.heap@.len(),
            final(self).gc.heap@[ind as int] == (Markable { value: value, marked: false }),
            final(self).stack == old(self).stack,
            final(self).max_allocations == old(self).max_allocations,
            old(self).free_ok() ==> forall|i: int| 0 <= i < old(self).gc.heap@.len()
                && kept(heap_values(old(self).gc.heap@), old(self).stack.cells(), i as usize)
                ==> (#[trigger] final(self).gc.heap@[i]).value == old(self).gc.heap@[i].value,
            old(self).allocations <= old(self).max_allocations && old(self).free_pointers@.len() > 0 ==> {
                &&& ind == old(self).free_pointers@.last()
                &&& final(self).gc.heap@ == old(self).gc.heap@.update(ind as int, Markable { value: value, marked: false })
                &&& final(self).free_pointers@ == old(self).free_pointers@.drop_last()
            },
            old(self).allocations <= old(self).max_allocations && old(self).free_pointers@.len() == 0 ==> {
                &&& ind == old(self).gc.heap@.len()
                &&& final(self).gc.heap@ == old(self).gc.heap@.push(Markable { value: value, marked: false })
                &&& final(self).free_pointers@ == old(self).free_pointers@
            },
            allocated(*old(self), *final(self), ind, value),
            old(self).free_list_ok() ==> final(self).free_list_ok(),
            old(self).gc.heap@.len() <= final(self).gc.heap@.len(),
    {
        let ghost cleaned = old(self).allocations > old(self).max_allocations;
        if self.allocations > self.max_allocations {
            self.clean();
            self.allocations = 0;
        }
        let ghost h1 = self.gc.heap@;
        let ghost f1 = self.free_pointers@;
        proof {
            if old(self).free_ok() {
                assert forall|i: int| 0 <= i < old(self).gc.heap@.len()
                    && kept(heap_values(old(self).gc.heap@), old(self).stack.cells(), i as usize)
                    implies #[trigger] h1[i].value == old(self).gc.heap@[i].value by {
                }
            }
        }
        self.allocations = if self.allocations < usize::MAX { self.allocations + 1 } else { self.allocations };
        let slot = Markable { value, marked: false };
        match self.free_pointers.pop() {
            Some(index) => {
                proof {
                    if old(self).free_ok() {
                        assert(h1[index as int].value is None) by {
                            assert(self.free_pointers@.len() + 1 == old(self).free_pointers@.len() || cleaned);
                        }
                    }
                }
                self.gc.heap.set(index, slot);
                proof {
                    assert(heap_values(self.gc.heap@) =~= heap_values(h1).update(index as int, value));
                    if old(self).free_list_ok() {
                        assert(f1.last() == index);
                        assert forall|j: int| 0 <= j < self.free_pointers@.len() implies
                            (#[trigger] self.gc.heap@[self.free_pointers@[j] as int]).value is None by {
                            assert(self.free_pointers@[j] == f1[j]);
                            assert(f1[j] != f1[f1.len() - 1]);
                        }
                        assert(self.free_pointers@ =~= f1.drop_last());
                    }
                }
                index
            },
            None => {
                let index = self.gc.heap.len();
                self.gc.heap.push(slot);
                proof {
                    assert(heap_values(self.gc.heap@) =~= heap_values(h1).push(value));
                    if old(self).free_list_ok() {
                        assert(self.free_pointers@.len() == 0);
                    }
                }
                index
            },
        }
    }

    /// Puts a heap object into a new slot.
    pub fn alloc_heap(&mut self, value: HeapValue) -> (ind: usize)
        requires
            old(self).wf(),
        ensures
            final(self).wf(),
            ind < final(self).gc.heap@.len(),
            final(self).gc.heap@[ind as int] == (Markable { value: Some(MemSlot::<GribValue, HeapValue>::Value(value)), marked: false }),
            final(self).stack == old(self).stack,
            allocated(*old(self), *final(self), ind, Some(MemSlot::<GribValue, HeapValue>::Value(value))),
            old(self).free_list_ok() ==> final(self).free_list_ok(),
            old(self).gc.heap@.len() <= final(self).gc.heap@.len(),
            old(self).free_ok() ==> forall|i: int| 0 <= i < old(self).gc.heap@.len()
                && kept(heap_values(old(self).gc.heap@), old(self).stack.cells(), i as usize)
                ==> (#[trigger] final(self).gc.heap@[i]).value == old(self).gc.heap@[i].value,
    {
        self.alloc_slot(Some(MemSlot::Value(value)))
    }

    /// Takes an empty slot.
    pub fn reserve_slot(&mut self) -> (ind: usize)
        requires
            old(self).wf(),
        ensures
            final(self).wf(),
            ind < final(self).gc.heap@.len(),
            final(self).gc.heap@[ind as int] == (Markable { value: None::<HeapSlot>, marked: false }),
            final(self).stack == old(self).stack,
            allocated(*old(self), *final(self), ind, None::<HeapSlot>),
    {
        self.alloc_slot(None)
    }

    /// Puts a captured variable into a new slot.
    pub fn alloc_captured(&mut self, value: GribValue) -> (ind: usize)
        requires
            old(self).wf(),
        ensures
            final(self).wf(),
            ind < final(self).gc.heap@.len(),
            final(self).gc.heap@[ind as int] == (Markable { value: Some(MemSlot::<GribValue, HeapValue>::Captured(value)), marked: false }),
            final(self).stack == old(self).stack,
            allocated(*old(self), *final(self), ind, Some(MemSlot::<GribValue, HeapValue>::Captured(value))),
            old(self).free_list_ok() ==> final(self).free_list_ok(),
            old(self).gc.heap@.len() <= final(self).gc.heap@.len(),
            old(self).free_ok() ==> forall|i: int| 0 <= i < old(self).gc.heap@.len()
                && kept(heap_values(old(self).gc.heap@), old(self).stack.cells(), i as usize)
                ==> (#[trigger] final(self).gc.heap@[i]).value == old(self).gc.heap@[i].value,
    {
        self.alloc_slot(Some(MemSlot::Captured(value)))
    }

    /// Pushes a captured variable: the value goes into a new heap slot and
    /// the stack refers to it.
    pub fn add_stack_captured(&mut self, value: GribValue)
        requires
            old(self).wf(),
            old(self).stack.cells().len() < STACK_SIZE,
        ensures
            final(self).wf(),
            final(self).stack.cells().len() == old(self).stack.cells().len() + 1,
            final(self).stack.cells().take(old(self).stack.cells().len() as int) == old(self).stack.cells(),
            final(self).stack.cells().last() matches MemSlot::Captured(i) && i < final(self).gc.heap@.len()
                && final(self).gc.heap@[i as int].value == Some(MemSlot::<GribValue, HeapValue>::Captured(value)),
            old(self).free_list_ok() ==> final(self).free_list_ok(),
            old(self).gc.heap@.len() <= final(self).gc.heap@.len(),
            old(self).free_ok() ==> forall|i: int| 0 <= i < old(self).gc.heap@.len()
                && kept(heap_values(old(self).gc.heap@), old(self).stack.cells(), i as usize)
                ==> (#[trigger] final(self).gc.heap@[i]).value == old(self).gc.heap@[i].value,
    {
        let ind = self.alloc_captured(value);
        self.stack.add(MemSlot::Captured(ind));
        proof {
            assert(self.stack.cells().take(old(self).stack.cells().len() as int) =~= old(self).stack.cells());
        }
    }

    /// A string value for `s`: the empty text, the character of a string of
    /// one byte (a single ASCII character), or else a new heap string.
    pub fn alloc_str(&mut self, s: String) -> (r: GribString)
        requires
            old(self).wf(),
        ensures
            final(self).wf(),
            s@.len() == 0 ==> r == GribString::Static(""),
            s@.len() == 1 && (s@[0] as u32) < 0x80 ==> r == GribString::Char(s@[0]),
            s@.len() > 1 || (s@.len() == 1 && (s@[0] as u32) >= 0x80) ==> (r matches GribString::Heap(i) && i
                < final(self).gc.heap@.len() && final(self).gc.heap@[i as int].value == Some(
                MemSlot::<GribValue, HeapValue>::Value(HeapValue::String(s)),
            ) && allocated(*old(self), *final(self), i, Some(MemSlot::<GribValue, HeapValue>::Value(HeapValue::String(s))))),
            s@.len() == 0 || (s@.len() == 1 && (s@[0] as u32) < 0x80) ==> *final(self) == *old(self),
    {
        let v = str_chars(s.as_str());
        if v.len() == 0 {
            GribString::Static("")
        } else if v.len() == 1 && (v[0] as u32) < 0x80 {
            GribString::Char(v[0])
        } else {
            GribString::Heap(self.alloc_heap(HeapValue::String(s)))
        }
    }

    /// Pushes the value of a parameter, captured if a lambda uses it.
    pub fn add_param(&mut self, param: &Param, val: GribValue)
        requires
            old(self).wf(),
            old(self).stack.cells().len() < STACK_SIZE,
        ensures
            final(self).wf(),
            final(self).stack.cells().len() == old(self).stack.cells().len() + 1,
            final(self).stack.cells().take(old(self).stack.cells().len() as int) == old(self).stack.cells(),
            !param.captured ==> final(self).stack.cells().last() == MemSlot::<usize, GribValue>::Value(val)
                && final(self).gc == old(self).gc,
            param.captured ==> (final(self).stack.cells().last() matches MemSlot::Captured(i) && i < final(self).gc.heap@.len()
                && final(self).gc.heap@[i as int].value == Some(MemSlot::<GribValue, HeapValue>::Captured(val))),
            old(self).free_list_ok() ==> final(self).free_list_ok(),
            old(self).gc.heap@.len() <= final(self).gc.heap@.len(),
            old(self).free_ok() ==> forall|i: int| 0 <= i < old(self).gc.heap@.len()
                && kept(heap_values(old(self).gc.heap@), old(self).stack.cells(), i as usize)
                ==> (#[trigger] final(self).gc.heap@[i]).value == old(self).gc.heap@[i].value,
    {
        if param.captured {
            self.add_stack_captured(val);
        } else {
            self.stack.add(MemSlot::Value(val));
            proof {
                assert(self.stack.cells().take(old(self).stack.cells().len() as int) =~= old(self).stack.cells());
            }
        }
    }

    /// Pushes the arguments of a call: one per named parameter (nil where
    /// an argument is missing), then, for a spread parameter, an array of
    /// the remaining arguments.  Gives back how many cells were pushed.
    pub fn add_params(&mut self, params: &Parameters, args: Vec<GribValue>) -> (alloced: usize)
        requires
            old(self).wf(),
            old(self).stack.cells().len() + params.params@.len() + (if params.vardic is Some { 1int } else { 0int })
                <= STACK_SIZE,
        ensures
            final(self).wf(),
            alloced == params.params@.len() + (if params.vardic is Some { 1usize } else { 0usize }),
            final(self).stack.cells().len() == old(self).stack.cells().len() + alloced,
            final(self).stack.cells().take(old(self).stack.cells().len() as int) == old(self).stack.cells(),
            forall|j: int| 0 <= j < params.params@.len() && !params.params@[j].captured ==>
                #[trigger] final(self).stack.cells()[old(self).stack.cells().len() + j] == MemSlot::<usize, GribValue>::Value(
                    if j < args@.len() { args@[j] } else { GribValue::Nil }),
            old(self).free_list_ok() ==> final(self).free_list_ok(),
            old(self).free_list_ok() ==> forall|j: int| 0 <= j < params.params@.len() && params.params@[j].captured ==>
                (#[trigger] final(self).stack.cells()[old(self).stack.cells().len() + j] matches MemSlot::Captured(p)
                && p < final(self).gc.heap@.len() && final(self).gc.heap@[p as int].value == Some(
                    MemSlot::<GribValue, HeapValue>::Captured(if j < args@.len() { args@[j] } else { GribValue::Nil }))),
            params.vardic matches Some(v) && v.captured ==> (final(self).stack.cells().last() matches MemSlot::Captured(p)
                && p < final(self).gc.heap@.len()
                && final(self).gc.heap@[p as int].value matches Some(MemSlot::Captured(GribValue::HeapValue(_)))),
            params.vardic matches Some(v) && !v.captured ==> {
                &&& final(self).stack.cells().last() matches MemSlot::Value(GribValue::HeapValue(p))
                &&& p < final(self).gc.heap@.len()
                &&& final(self).gc.heap@[p as int].value matches Some(MemSlot::Value(HeapValue::Array(rest)))
                &&& rest@ == (if params.params@.len() <= args@.len() { args@.skip(params.params@.len() as int) } else { Seq::empty() })
            },
    {
        let n0 = self.stack.len();
        let mut i: usize = 0;
        while i < params.params.len()
            invariant
                self.wf(),
                n0 == old(self).stack.cells().len(),
                n0 + params.params@.len() + (if params.vardic is Some { 1int } else { 0int }) <= STACK_SIZE,
                i <= params.params@.len(),
                self.stack.cells().len() == n0 + i,
                self.stack.cells().take(n0 as int) == old(self).stack.cells(),
                forall|j: int| 0 <= j < i && !params.params@[j].captured ==>
                    #[trigger] self.stack.cells()[n0 + j] == MemSlot::<usize, GribValue>::Value(
                        if j < args@.len() { args@[j] } else { GribValue::Nil }),
                old(self).free_list_ok() ==> self.free_list_ok(),
                old(self).free_list_ok() ==> forall|j: int| 0 <= j < i && params.params@[j].captured ==>
                    (#[trigger] self.stack.cells()[n0 + j] matches MemSlot::Captured(p)
                    && p < self.gc.heap@.len() && self.gc.heap@[p as int].value == Some(
                        MemSlot::<GribValue, HeapValue>::Captured(if j < args@.len() { args@[j] } else { GribValue::Nil }))),
            decreases params.params@.len() - i,
        {
            let ghost before = self.stack.cells();
            let ghost hb = self.gc.heap@;
            let val = if i < args.len() { clone_value(&args[i]) } else { GribValue::Nil };
            self.add_param(&params.params[i], val);
            proof {
                assert(self.stack.cells().take(n0 as int) =~= before.take(n0 as int));
                if old(self).free_list_ok() {
                    assert forall|j: int| 0 <= j < i + 1 && params.params@[j].captured implies
                        (#[trigger] self.stack.cells()[n0 + j] matches MemSlot::Captured(p)
                        && p < self.gc.heap@.len() && self.gc.heap@[p as int].value == Some(
                            MemSlot::<GribValue, HeapValue>::Captured(if j < args@.len() { args@[j] } else { GribValue::Nil }))) by {
                        if j < i {
                            assert(self.stack.cells()[n0 + j] == before[n0 + j]);
                            if let MemSlot::Captured(p) = before[n0 + j] {
                                assert(hb[p as int].value is Some);
                                assert(heap_values(hb)[p as int] == hb[p as int].value);
                                lemma_captured_kept(heap_values(hb), before, n0 + j, p);
                                assert(self.gc.heap@[p as int].value == hb[p as int].value);
                            }
                        } else {
                            assert(self.stack.cells()[n0 + j] == self.stack.cells().last());
                        }
                    }
                }
                assert forall|j: int| 0 <= j < i + 1 && !params.params@[j].captured implies
                    #[trigger] self.stack.cells()[n0 + j] == MemSlot::<usize, GribValue>::Value(
                        if j < args@.len() { args@[j] } else { GribValue::Nil }) by {
                    if j < i {
                        assert(self.stack.cells()[n0 + j] == before[n0 + j]);
                    }
                }
            }
            i = i + 1;
        }
        let mut alloced = params.params.len();
        match &params.vardic {
            Some(spread) => {
                let mut rest: Vec<GribValue> = Vec::new();
                let mut k = params.params.len();
                while k < args.len()
                    invariant
                        k <= args@.len() || args@.len() < params.params@.len(),
                        params.params@.len() <= k,
                        params.params@.len() <= args@.len() ==> rest@ == args@.subrange(params.params@.len() as int, k as int),
                        args@.len() < params.params@.len() ==> rest@.len() == 0,
                    decreases args@.len() - k,
                {
                    rest.push(clone_value(&args[k]));
                    proof {
                        assert(args@.subrange(params.params@.len() as int, k + 1) =~= args@.subrange(params.params@.len() as int, k as int).push(args@[k as int]));
                    }
                    k = k + 1;
                }
                proof {
                    if params.params@.len() <= args@.len() {
                        assert(args@.subrange(params.params@.len() as int, args@.len() as int) =~= args@.skip(params.params@.len() as int));
                    } else {
                        assert(rest@ =~= Seq::<GribValue>::empty());
                    }
                }
                let ghost before = self.stack.cells();
                let ghost hb = self.gc.heap@;
                let ptr = self.alloc_heap(HeapValue::Array(rest));
                let ghost hm = self.gc.heap@;
                self.add_param(spread, GribValue::HeapValue(ptr));
                proof {
                    assert(self.stack.cells().take(n0 as int) =~= before.take(n0 as int));
                    if old(self).free_list_ok() {
                        assert forall|j: int| 0 <= j < params.params@.len() && params.params@[j].captured implies
                            (#[trigger] self.stack.cells()[n0 + j] matches MemSlot::Captured(p)
                            && p < self.gc.heap@.len() && self.gc.heap@[p as int].value == Some(
                                MemSlot::<GribValue, HeapValue>::Captured(if j < args@.len() { args@[j] } else { GribValue::Nil }))) by {
                            assert(self.stack.cells()[n0 + j] == before[n0 + j]);
                            if let MemSlot::Captured(p) = before[n0 + j] {
                                assert(heap_values(hb)[p as int] == hb[p as int].value);
                                lemma_captured_kept(heap_values(hb), before, n0 + j, p);
                                assert(hm[p as int].value == hb[p as int].value);
                                assert(heap_values(hm)[p as int] == hm[p as int].value);
                                lemma_captured_kept(heap_values(hm), before, n0 + j, p);
                                assert(self.gc.heap@[p as int].value == hm[p as int].value);
                            }
                        }
                    }
                    assert forall|j: int| 0 <= j < params.params@.len() && !params.params@[j].captured implies
                        #[trigger] self.stack.cells()[n0 + j] == MemSlot::<usize, GribValue>::Value(
                            if j < args@.len() { args@[j] } else { GribValue::Nil }) by {
                        assert(self.stack.cells()[n0 + j] == before[n0 + j]);
                    }
                }
                alloced = alloced + 1;
            },
            None => {},
        }
        alloced
    }

    /// The value of the variable in stack cell `index`: the cell's own
    /// value, or the one its captured heap cell holds.
    pub fn read_val(&self, index: usize) -> (r: Option<GribValue>)
        ensures
            r == variable_value(self.stack.cells(), self.gc.heap@, index as int),
    {
        if index >= self.stack.len() {
            return None;
        }
        match &self.stack.stack[index] {
            MemSlot::Value(v) => Some(clone_value(v)),
            MemSlot::Captured(p) => {
                let p = *p;
                if p < self.gc.heap.len() {
                    match &self.gc.heap[p].value {
                        Some(MemSlot::Captured(v)) => Some(clone_value(v)),
                        _ => None,
                    }
                } else {
                    None
                }
            },
        }
    }

    /// Assigns the variable in stack cell `index`: the cell itself, or the
    /// heap cell it captures.  Nothing changes where there is no such
    /// variable.
    pub fn write_val(&mut self, index: usize, val: GribValue)
        requires
            old(self).wf(),
        ensures
            final(self).wf(),
            variable_value(old(self).stack.cells(), old(self).gc.heap@, index as int) is Some
                ==> variable_value(final(self).stack.cells(), final(self).gc.heap@, index as int) == Some(val),
            variable_value(old(self).stack.cells(), old(self).gc.heap@, index as int) is None
                ==> *final(self) == *old(self),
            final(self).stack.cells().len() == old(self).stack.cells().len(),
            final(self).gc.heap@.len() == old(self).gc.heap@.len(),
            forall|j: int| 0 <= j < old(self).stack.cells().len() ==> (#[trigger] final(self).stack.cells()[j]) is Captured
                == old(self).stack.cells()[j] is Captured,
            forall|j: int| 0 <= j < old(self).stack.cells().len() && j != index && old(self).stack.cells()[j] is Value
                ==> #[trigger] final(self).stack.cells()[j] == old(self).stack.cells()[j],
            forall|q: int| 0 <= q < old(self).gc.heap@.len() && !(old(self).stack.cells()[index as int] == MemSlot::<usize, GribValue>::Captured(q as usize))
                ==> #[trigger] final(self).gc.heap@[q] == old(self).gc.heap@[q],
    {
        if index >= self.stack.len() {
            return;
        }
        match &self.stack.stack[index] {
            MemSlot::Value(_) => {
                self.stack.stack.set(index, MemSlot::Value(val));
            },
            MemSlot::Captured(p) => {
                let p = *p;
                if p < self.gc.heap.len() {
                    let holds = match &self.gc.heap[p].value {
                        Some(MemSlot::Captured(_)) => true,
                        _ => false,
                    };
                    if holds {
                        let marked = self.gc.heap[p].marked;
                        self.gc.heap.set(p, Markable { value: Some(MemSlot::Captured(val)), marked });
                    }
                }
            },
        }
    }

    /// Pushes the captured variables held in heap slot `stack_ind`, if it
    /// holds some, and gives back how many.
    pub fn add_stack(&mut self, stack_ind: Option<usize>) -> (allocated: usize)
        requires
            old(self).wf(),
            stack_ind matches Some(i) && old(self).gc.heap_value_at(i) matches Some(HeapValue::CapturedStack(st))
                ==> old(self).stack.cells().len() + st@.len() <= STACK_SIZE,
        ensures
            final(self).wf(),
            final(self).gc == old(self).gc,
            final(self).stack.cells() == old(self).stack.cells() + (match stack_ind {
                Some(i) => match old(self).gc.heap_value_at(i) {
                    Some(HeapValue::CapturedStack(st)) => st@,
                    _ => Seq::empty(),
                },
                None => Seq::empty(),
            }),
            allocated == final(self).stack.cells().len() - old(self).stack.cells().len(),
    {
        let ind = match stack_ind {
            Some(i) => i,
            None => {
                assert(self.stack.cells() =~= old(self).stack.cells() + Seq::<StackSlot>::empty());
                return 0;
            },
        };
        match self.gc.try_get_stack(ind) {
            Some(st) => {
                let n = st.len();
                let mut k: usize = 0;
                while k < n
                    invariant
                        n == st@.len(),
                        k <= n,
                        self.gc == old(self).gc,
                        self.free_pointers == old(self).free_pointers,
                        old(self).wf(),
                        self.gc.heap_value_at(ind) == Some(HeapValue::CapturedStack(*st)),
                        old(self).stack.cells().len() + st@.len() <= STACK_SIZE,
                        self.stack.cells() == old(self).stack.cells() + st@.take(k as int),
                    decreases n - k,
                {
                    let slot = clone_slot(&st[k]);
                    self.stack.add(slot);
                    proof {
                        assert(st@.take(k + 1) =~= st@.take(k as int).push(st@[k as int]));
                    }
                    k = k + 1;
                }
                proof {
                    assert(st@.take(n as int) =~= st@);
                }
                n
            },
            None => {
                assert(self.stack.cells() =~= old(self).stack.cells() + Seq::<StackSlot>::empty());
                0
            },
        }
    }
}

/// The slots a collection frees lie in the heap.
pub proof fn lemma_freed_bounds(vals: Seq<Option<HeapSlot>>, stack: Seq<StackSlot>, n: nat)
    requires
        n <= usize::MAX,
    ensures
        forall|j: int| 0 <= j < freed(vals, stack, n).len() ==> (#[trigger] freed(vals, stack, n)[j]) < n,
        forall|j: int| 0 <= j < freed(vals, stack, n).len() ==> !kept(vals, stack, #[trigger] freed(vals, stack, n)[j]),
        forall|j: int| 0 <= j < freed(vals, stack, n).len() ==> live(vals, #[trigger] freed(vals, stack, n)[j]),
        forall|a: int, b: int| 0 <= a < b < freed(vals, stack, n).len() ==> #[trigger] freed(vals, stack, n)[a] < #[trigger] freed(vals, stack, n)[b],
    decreases n,
{
    if n > 0 {
        let m = (n - 1) as nat;
        lemma_freed_bounds(vals, stack, m);
        let prev = freed(vals, stack, m);
        let cur = freed(vals, stack, n);
        assert forall|j: int| 0 <= j < cur.len() implies (#[trigger] cur[j]) < n && !kept(vals, stack, cur[j])
            && live(vals, cur[j]) by {
            if j < prev.len() {
                assert(cur[j] == prev[j]);
            }
        }
        assert(cur == (if kept(vals, stack, (n - 1) as usize) || !live(vals, (n - 1) as usize) {
            prev
        } else {
            prev.push((n - 1) as usize)
        }));
        assert forall|a: int, b: int| 0 <= a < b < cur.len() implies #[trigger] cur[a] < #[trigger] cur[b] by {
            assert(cur[a] == prev[a]);
            assert(prev[a] < m);
            if b < prev.len() {
                assert(cur[b] == prev[b]);
            } else {
                assert(cur[b] == (n - 1) as usize);
            }
        }
    }
}

} // verus!
