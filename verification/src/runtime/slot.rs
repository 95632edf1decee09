use crate::runtime::values::{GribValue, HeapValue};
use vstd::prelude::*;

verus! {

/// A heap entry with the mark that a collection sets on what it reaches.
#[derive(Debug)]
pub struct Markable<T> {
    pub value: T,
    pub marked: bool,
}

/// A memory cell: a value held in place, or a reference to where a captured
/// one lives.
#[derive(Clone, Copy, Debug)]
pub enum MemSlot<C, V> {
    Captured(C),
    Value(V),
}

impl<C, V> MemSlot<C, V> {
    pub fn is_value(&self) -> (b: bool)
        ensures
            b == (*self is Value),
    {
        match self {
            MemSlot::Value(_) => true,
            _ => false,
        }
    }
}

/// A heap cell: a captured variable, or a heap object.
pub type HeapSlot = MemSlot<GribValue, HeapValue>;

/// A heap entry: empty (free) or a cell, with its mark.
pub type MarkedSlot = Markable<Option<HeapSlot>>;

/// A stack cell: a value, or the heap slot of a captured variable.
pub type StackSlot = MemSlot<usize, GribValue>;

/// How often the runtime collects: after this many allocations.
#[derive(Clone, Copy, Debug)]
pub struct RuntimeConfig {
    pub cleanup_after: usize,
}

/// The stack size and collection period of a collector.
#[derive(Clone, Copy, Debug)]
pub struct GcConfig {
    pub stack_size: usize,
    pub cleanup_after: usize,
}

/// Where a variable lives and whether it belongs to the current call.
#[derive(Clone, Copy, Debug)]
pub struct VariableData {
    pub index: usize,
    pub current: bool,
}

} // verus!
