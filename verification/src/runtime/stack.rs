use crate::runtime::heap::clone_value;
use crate::runtime::slot::{MemSlot, StackSlot};
use vstd::prelude::*;

verus! {

/// How many cells the stack holds at most.
pub const STACK_SIZE: usize = 5000;

/// A copy of a stack cell.
pub fn clone_slot(s: &StackSlot) -> (r: StackSlot)
    ensures
        r == *s,
{
    match s {
        MemSlot::Captured(i) => MemSlot::Captured(*i),
        MemSlot::Value(v) => MemSlot::Value(clone_value(v)),
    }
}

/// The value stack of the runtime, bounded by `STACK_SIZE`.
#[derive(Debug)]
pub struct Stack {
    pub stack: Vec<StackSlot>,
}

impl Stack {
    pub open spec fn cells(&self) -> Seq<StackSlot> {
        self.stack@
    }

    pub fn new() -> (s: Self)
        ensures
            s.cells() == Seq::<StackSlot>::empty(),
    {
        Stack { stack: Vec::new() }
    }

    pub fn len(&self) -> (n: usize)
        ensures
            n == self.cells().len(),
    {
        self.stack.len()
    }

    /// Pushes a cell and gives back its position.  The stack must have room.
    pub fn add(&mut self, value: StackSlot) -> (ptr: usize)
        requires
            old(self).cells().len() < STACK_SIZE,
        ensures
            final(self).cells() == old(self).cells().push(value),
            ptr == old(self).cells().len(),
    {
        let ptr = self.stack.len();
        self.stack.push(value);
        ptr
    }

    /// Removes the top cell, if any.
    pub fn pop(&mut self)
        ensures
            old(self).cells().len() > 0 ==> final(self).cells() == old(self).cells().drop_last(),
            old(self).cells().len() == 0 ==> final(self).cells() == old(self).cells(),
    {
        let _ = self.stack.pop();
    }

    /// Removes the top `count` cells (all of them if there are fewer).
    pub fn pop_stack(&mut self, count: usize)
        ensures
            count <= old(self).cells().len() ==> final(self).cells() == old(self).cells().take(old(self).cells().len() - count),
            count > old(self).cells().len() ==> final(self).cells() == Seq::<StackSlot>::empty(),
    {
        let mut k: usize = 0;
        while k < count
            invariant
                k <= count,
                k <= old(self).cells().len() ==> self.cells() == old(self).cells().take(old(self).cells().len() - k),
                k > old(self).cells().len() ==> self.cells() == Seq::<StackSlot>::empty(),
            decreases count - k,
        {
            let ghost before = self.cells();
            self.pop();
            proof {
                if k < old(self).cells().len() {
                    assert(before.drop_last() =~= old(self).cells().take(old(self).cells().len() - (k + 1)));
                }
            }
            k = k + 1;
        }
    }

    /// The cell `offset` places below the top (1 is the top cell).
    pub fn offset_slot(&self, offset: usize) -> (r: Option<&StackSlot>)
        ensures
            (1 <= offset <= self.cells().len()) ==> r == Some(&self.cells()[self.cells().len() - offset]),
            !(1 <= offset <= self.cells().len()) ==> r is None,
    {
        if offset >= 1 && offset <= self.stack.len() {
            Some(&self.stack[self.stack.len() - offset])
        } else {
            None
        }
    }

    /// The cells, bottom first.
    pub fn iter(&self) -> (v: &Vec<StackSlot>)
        ensures
            v@ == self.cells(),
    {
        &self.stack
    }
}

} // verus!
