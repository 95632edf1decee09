use crate::ast::node::Program;
use crate::runtime::slot::{HeapSlot, MarkedSlot, Markable, MemSlot, StackSlot};
use crate::runtime::values::{
    ArrayRef, GribString, GribStringRef, GribValue, HashRef, HashValue, HeapValue, KnownIndex, StringRef,
};
use vstd::prelude::*;

verus! {

/// Whether the bits of a double stand for zero (positive or negative).
pub open spec fn is_zero_bits(bits: u64) -> bool {
    bits & 0x7fff_ffff_ffff_ffffu64 == 0
}

/// Whether the bits of a double stand for NaN: all exponent bits set and a
/// fraction other than zero.
pub open spec fn is_nan_bits(bits: u64) -> bool {
    bits & 0x7ff0_0000_0000_0000u64 == 0x7ff0_0000_0000_0000u64 && bits & 0x000f_ffff_ffff_ffffu64 != 0
}

/// IEEE 754 equality of two doubles given by their bits: NaN equals
/// nothing, and the two zeros are equal.
pub open spec fn num_eq(a: u64, b: u64) -> bool {
    !is_nan_bits(a) && !is_nan_bits(b) && (a == b || (is_zero_bits(a) && is_zero_bits(b)))
}

/// Two string values with the same representation.
pub open spec fn same_string(x: GribString, y: GribString) -> bool {
    match (x, y) {
        (GribString::Stored(a), GribString::Stored(b)) => a == b,
        (GribString::Heap(a), GribString::Heap(b)) => a == b,
        (GribString::Char(a), GribString::Char(b)) => a == b,
        (GribString::Static(a), GribString::Static(b)) => a@ == b@,
        _ => false,
    }
}

/// Whether two string values have the same representation.
pub fn strings_same(x: &GribString, y: &GribString) -> (r: bool)
    ensures
        r == same_string(*x, *y),
{
    match (x, y) {
        (GribString::Stored(a), GribString::Stored(b)) => *a == *b,
        (GribString::Heap(a), GribString::Heap(b)) => *a == *b,
        (GribString::Char(a), GribString::Char(b)) => *a == *b,
        (GribString::Static(a), GribString::Static(b)) => {
            let u = crate::text::str_chars(a);
            let v = crate::text::str_chars(b);
            crate::text::chars_match(u.as_slice(), v.as_slice())
        },
        _ => false,
    }
}

/// Equality of two values as the type's `==` decides it: same kind and
/// same contents, numbers compared as doubles, strings by representation.
pub open spec fn value_eq(a: GribValue, b: GribValue) -> bool
    decreases a,
{
    match (a, b) {
        (GribValue::Nil, GribValue::Nil) => true,
        (GribValue::Number(x), GribValue::Number(y)) => num_eq(x, y),
        (GribValue::String(x), GribValue::String(y)) => same_string(x, y),
        (GribValue::Callable(x), GribValue::Callable(y)) => x == y,
        (GribValue::ModuleObject(x), GribValue::ModuleObject(y)) => x == y,
        (GribValue::HeapValue(x), GribValue::HeapValue(y)) => x == y,
        (GribValue::Bool(x), GribValue::Bool(y)) => x == y,
        (GribValue::Error(x), GribValue::Error(y)) => value_eq(*x, *y),
        _ => false,
    }
}

/// Whether two numbers are equal as doubles.
pub fn numbers_equal(a: u64, b: u64) -> (r: bool)
    ensures
        r == num_eq(a, b),
{
    let a_nan = a & 0x7ff0_0000_0000_0000u64 == 0x7ff0_0000_0000_0000u64 && a & 0x000f_ffff_ffff_ffffu64 != 0;
    let b_nan = b & 0x7ff0_0000_0000_0000u64 == 0x7ff0_0000_0000_0000u64 && b & 0x000f_ffff_ffff_ffffu64 != 0;
    !a_nan && !b_nan && (a == b || (a & 0x7fff_ffff_ffff_ffffu64 == 0 && b & 0x7fff_ffff_ffff_ffffu64 == 0))
}

/// Equality of two values as `value_eq` defines it.
pub fn values_equal(a: &GribValue, b: &GribValue) -> (r: bool)
    ensures
        r == value_eq(*a, *b),
    decreases a,
{
    match (a, b) {
        (GribValue::Nil, GribValue::Nil) => true,
        (GribValue::Number(x), GribValue::Number(y)) => numbers_equal(*x, *y),
        (GribValue::String(x), GribValue::String(y)) => strings_same(x, y),
        (GribValue::Callable(x), GribValue::Callable(y)) => *x == *y,
        (GribValue::ModuleObject(x), GribValue::ModuleObject(y)) => *x == *y,
        (GribValue::HeapValue(x), GribValue::HeapValue(y)) => *x == *y,
        (GribValue::Bool(x), GribValue::Bool(y)) => *x == *y,
        (GribValue::Error(x), GribValue::Error(y)) => values_equal(x, y),
        _ => false,
    }
}

/// A copy of a value.
pub fn clone_value(v: &GribValue) -> (r: GribValue)
    ensures
        r == *v,
    decreases v,
{
    match v {
        GribValue::Nil => GribValue::Nil,
        GribValue::Number(n) => GribValue::Number(*n),
        GribValue::String(s) => GribValue::String(*s),
        GribValue::Callable(c) => GribValue::Callable(*c),
        GribValue::ModuleObject(m) => GribValue::ModuleObject(*m),
        GribValue::HeapValue(i) => GribValue::HeapValue(*i),
        GribValue::Bool(b) => GribValue::Bool(*b),
        GribValue::Error(b) => GribValue::Error(Box::new(clone_value(b))),
    }
}

/// The text of a string value, looked up in the program's string table or
/// the heap; None when it refers to nothing.
pub open spec fn text_of(s: GribString, strings: Seq<String>, gc: Gc) -> Option<Seq<char>> {
    match s {
        GribString::Stored(i) => if i < strings.len() { Some(strings[i as int]@) } else { None },
        GribString::Heap(i) => match gc.heap_value_at(i) {
            Some(HeapValue::String(t)) => Some(t@),
            _ => None,
        },
        GribString::Char(c) => Some(seq![c]),
        GribString::Static(t) => Some(t@),
    }
}

/// Whether a value counts as true: anything but zero, nil, an error, an
/// empty (or missing) string and false.
pub open spec fn truthy_spec(v: GribValue, strings: Seq<String>, gc: Gc) -> bool {
    match v {
        GribValue::Callable(_) | GribValue::ModuleObject(_) | GribValue::HeapValue(_) => true,
        GribValue::Number(n) => !is_zero_bits(n),
        GribValue::Nil | GribValue::Error(_) => false,
        GribValue::Bool(b) => b,
        GribValue::String(s) => text_of(s, strings, gc) matches Some(t) && t.len() > 0,
    }
}

/// Whether `==` holds between two values: strings by their text, other
/// values as `value_eq` says.
pub open spec fn exact_equals_spec(a: GribValue, b: GribValue, strings: Seq<String>, gc: Gc) -> bool {
    match (a, b) {
        (GribValue::String(x), GribValue::String(y)) => text_of(x, strings, gc) == text_of(y, strings, gc),
        _ => value_eq(a, b),
    }
}

impl GribValue {
    /// Whether the value counts as true.
    pub fn truthy(&self, program: &Program, gc: &Gc) -> (b: bool)
        ensures
            b == truthy_spec(*self, program.strings@, *gc),
    {
        match self {
            GribValue::Callable(_) | GribValue::ModuleObject(_) | GribValue::HeapValue(_) => true,
            GribValue::Number(n) => *n & 0x7fff_ffff_ffff_ffffu64 != 0,
            GribValue::Nil | GribValue::Error(_) => false,
            GribValue::Bool(b) => *b,
            GribValue::String(_) => match gc.try_get_string(self, program) {
                Some(r) => !r.is_empty(),
                None => false,
            },
        }
    }

    /// Whether `==` holds between two values: strings compare by text, other
    /// values by kind and contents.
    pub fn exact_equals(&self, val: &GribValue, program: &Program, gc: &Gc) -> (b: bool)
        ensures
            b == exact_equals_spec(*self, *val, program.strings@, *gc),
    {
        match (self, val) {
            (GribValue::String(_), GribValue::String(_)) => {
                match (gc.try_get_string(self, program), gc.try_get_string(val, program)) {
                    (None, None) => true,
                    (Some(x), Some(y)) => {
                        let tx = x.to_text();
                        let ty = y.to_text();
                        crate::text::string_eq(&tx, &ty)
                    },
                    _ => false,
                }
            },
            _ => values_equal(self, val),
        }
    }
}

/// The heap of the runtime: numbered slots, each empty or holding a cell,
/// each with a mark.
#[derive(Debug)]
pub struct Gc {
    pub heap: Vec<MarkedSlot>,
}

impl Gc {
    pub fn new() -> (g: Self)
        ensures
            g.heap@.len() == 0,
    {
        Gc { heap: Vec::new() }
    }

    /// Empties slot `index` and clears its mark (nothing happens past the
    /// heap).
    pub fn remove(&mut self, index: usize)
        ensures
            index < old(self).heap@.len() ==> final(self).heap@ == old(self).heap@.update(
                index as int,
                Markable { value: None, marked: false },
            ),
            index >= old(self).heap@.len() ==> final(self).heap@ == old(self).heap@,
    {
        if index < self.heap.len() {
            self.heap[index].marked = false;
            self.heap[index].value = None;
            proof {
                assert(self.heap@ =~= old(self).heap@.update(index as int, Markable { value: None, marked: false }));
            }
        }
    }

    /// The cell in slot `ptr`, if there is one.
    pub fn heap_slot(&self, ptr: usize) -> (r: Option<&HeapSlot>)
        ensures
            r is Some <==> (ptr < self.heap@.len() && self.heap@[ptr as int].value is Some),
            r matches Some(s) ==> Some(*s) == self.heap@[ptr as int].value,
    {
        if ptr < self.heap.len() {
            match &self.heap[ptr].value {
                Some(s) => Some(s),
                None => None,
            }
        } else {
            None
        }
    }

    /// The heap object in slot `ptr`, if the slot holds one.
    pub fn heap_val(&self, ptr: usize) -> (r: Option<&HeapValue>)
        ensures
            r is Some <==> (ptr < self.heap@.len() && self.heap@[ptr as int].value matches Some(MemSlot::Value(_))),
            r matches Some(v) ==> self.heap@[ptr as int].value == Some(MemSlot::<GribValue, HeapValue>::Value(*v)),
    {
        match self.heap_slot(ptr) {
            Some(MemSlot::Value(v)) => Some(v),
            _ => None,
        }
    }

    /// The captured variable in slot `index`.
    pub fn get_captured(&self, index: usize) -> (r: &GribValue)
        requires
            index < self.heap@.len(),
            self.heap@[index as int].value matches Some(MemSlot::Captured(_)),
        ensures
            self.heap@[index as int].value == Some(MemSlot::<GribValue, HeapValue>::Captured(*r)),
    {
        match &self.heap[index].value {
            Some(MemSlot::Captured(v)) => v,
            _ => vstd::pervasive::unreached(),
        }
    }

    /// Puts a heap object into slot `ptr`, keeping its mark (nothing happens
    /// past the heap).
    pub fn set_heap_val_at(&mut self, value: HeapValue, ptr: usize)
        ensures
            ptr < old(self).heap@.len() ==> final(self).heap@ == old(self).heap@.update(
                ptr as int,
                Markable { value: Some(MemSlot::Value(value)), marked: old(self).heap@[ptr as int].marked },
            ),
            ptr >= old(self).heap@.len() ==> final(self).heap@ == old(self).heap@,
    {
        if ptr < self.heap.len() {
            self.heap[ptr].value = Some(MemSlot::Value(value));
            proof {
                assert(self.heap@ =~= old(self).heap@.update(
                    ptr as int,
                    Markable { value: Some(MemSlot::Value(value)), marked: old(self).heap@[ptr as int].marked },
                ));
            }
        }
    }

    /// A value with a captured variable replaced by what it holds.
    pub fn normalize_val(&self, val: &GribValue) -> (r: GribValue)
        ensures
            (val.spec_ptr() matches Some(p) && p < self.heap@.len()
                && self.heap@[p as int].value matches Some(MemSlot::Captured(c))) ==> (self.heap@[
                val.spec_ptr()->0 as int
            ].value == Some(MemSlot::<GribValue, HeapValue>::Captured(r))),
            !(val.spec_ptr() matches Some(p) && p < self.heap@.len()
                && self.heap@[p as int].value matches Some(MemSlot::Captured(c))) ==> r == *val,
    {
        match val.ptr() {
            Some(p) => match self.heap_slot(p) {
                Some(MemSlot::Captured(c)) => clone_value(c),
                _ => clone_value(val),
            },
            None => clone_value(val),
        }
    }

    /// The kind of heap object in slot `ptr`, if it is an array, a hash or a
    /// string.
    pub fn typed_index(&self, ptr: usize) -> (r: Option<KnownIndex>)
        ensures
            r == (match self.heap_value_at(ptr) {
                Some(HeapValue::Array(_)) => Some(KnownIndex::Array(ArrayRef(ptr))),
                Some(HeapValue::Hash(_)) => Some(KnownIndex::Hash(HashRef(ptr))),
                Some(HeapValue::String(_)) => Some(KnownIndex::String(StringRef(ptr))),
                _ => None,
            }),
    {
        match self.heap_val(ptr) {
            Some(HeapValue::Array(_)) => Some(KnownIndex::Array(ArrayRef(ptr))),
            Some(HeapValue::Hash(_)) => Some(KnownIndex::Hash(HashRef(ptr))),
            Some(HeapValue::String(_)) => Some(KnownIndex::String(StringRef(ptr))),
            _ => None,
        }
    }

    /// The heap object in slot `ptr`, if the slot holds one.
    pub open spec fn heap_value_at(&self, ptr: usize) -> Option<HeapValue> {
        if ptr < self.heap@.len() {
            match self.heap@[ptr as int].value {
                Some(MemSlot::Value(v)) => Some(v),
                _ => None,
            }
        } else {
            None
        }
    }

    /// The array a value points to, if it points to one.
    pub fn try_get_array(&self, val: &GribValue) -> (r: Option<&Vec<GribValue>>)
        ensures
            r is Some <==> (val.spec_ptr() matches Some(p) && self.heap_value_at(p) matches Some(HeapValue::Array(_))),
            r matches Some(a) ==> self.heap_value_at(val.spec_ptr()->0) == Some(HeapValue::Array(*a)),
    {
        match val.ptr() {
            Some(p) => match self.heap_val(p) {
                Some(HeapValue::Array(a)) => Some(a),
                _ => None,
            },
            None => None,
        }
    }

    /// The hash a value points to, if it points to one.
    pub fn try_get_hash(&self, val: &GribValue) -> (r: Option<&HashValue>)
        ensures
            r is Some <==> (val.spec_ptr() matches Some(p) && self.heap_value_at(p) matches Some(HeapValue::Hash(_))),
            r matches Some(h) ==> self.heap_value_at(val.spec_ptr()->0) == Some(HeapValue::Hash(*h)),
    {
        match val.ptr() {
            Some(p) => match self.heap_val(p) {
                Some(HeapValue::Hash(h)) => Some(h),
                _ => None,
            },
            None => None,
        }
    }

    /// The captured variables in slot `ind`, if it holds some.
    pub fn try_get_stack(&self, ind: usize) -> (r: Option<&Vec<StackSlot>>)
        ensures
            r is Some <==> (self.heap_value_at(ind) matches Some(HeapValue::CapturedStack(_))),
            r matches Some(s) ==> self.heap_value_at(ind) == Some(HeapValue::CapturedStack(*s)),
    {
        match self.heap_val(ind) {
            Some(HeapValue::CapturedStack(s)) => Some(s),
            _ => None,
        }
    }

    /// The text of a string value: from the program's string table, from
    /// the heap, or the value's own character or text.
    pub fn try_get_string<'a>(&'a self, val: &GribValue, program: &'a Program) -> (r: Option<GribStringRef<'a>>)
        ensures
            !(*val is String) ==> r is None,
            (*val) matches GribValue::String(GribString::Char(c)) ==> r == Some(GribStringRef::Char(c)),
            (*val) matches GribValue::String(GribString::Static(s)) ==> (r matches Some(GribStringRef::Ref(t)) && t@ == s@),
            (*val) matches GribValue::String(GribString::Stored(i)) ==> (
                (i < program.strings@.len()) == (r is Some)
                && (r matches Some(t) ==> t.text() == program.strings@[i as int]@)),
            (*val) matches GribValue::String(GribString::Heap(i)) ==> (
                (self.heap_value_at(i) matches Some(HeapValue::String(_))) == (r is Some)
                && (r matches Some(t) ==> self.heap_value_at(i) matches Some(HeapValue::String(s)) && t.text() == s@)),
    {
        match val {
            GribValue::String(s) => match s {
                GribString::Stored(i) => {
                    if *i < program.strings.len() {
                        Some(GribStringRef::Ref(program.strings[*i].as_str()))
                    } else {
                        None
                    }
                },
                GribString::Heap(i) => match self.heap_val(*i) {
                    Some(HeapValue::String(s)) => Some(GribStringRef::Ref(s.as_str())),
                    _ => None,
                },
                GribString::Char(c) => Some(GribStringRef::Char(*c)),
                GribString::Static(s) => Some(GribStringRef::Ref(s)),
            },
            _ => None,
        }
    }
}

/// Whether two values have the same type.
pub open spec fn same_type(a: GribValue, b: GribValue) -> bool {
    match (a, b) {
        (GribValue::Nil, GribValue::Nil) => true,
        (GribValue::Number(_), GribValue::Number(_)) => true,
        (GribValue::String(_), GribValue::String(_)) => true,
        (GribValue::Callable(_), GribValue::Callable(_)) => true,
        (GribValue::ModuleObject(_), GribValue::ModuleObject(_)) => true,
        (GribValue::HeapValue(_), GribValue::HeapValue(_)) => true,
        (GribValue::Bool(_), GribValue::Bool(_)) => true,
        (GribValue::Error(_), GribValue::Error(_)) => true,
        _ => false,
    }
}

/// `==` and `!=` never coerce: values of different types are unequal.
/// Equality is symmetric.  Booleans are equal exactly when both are true or
/// both false, `nil` equals `nil`, and references (to heap cells,
/// procedures, modules) are equal exactly when they are the same.
pub proof fn law_equality(a: GribValue, b: GribValue)
    ensures
        !same_type(a, b) ==> !value_eq(a, b),
        value_eq(a, b) == value_eq(b, a),
        a matches GribValue::Bool(x) ==> (b matches GribValue::Bool(y) ==> (value_eq(a, b) == (x == y))),
        a is Nil && b is Nil ==> value_eq(a, b),
        a matches GribValue::HeapValue(x) ==> (b matches GribValue::HeapValue(y) ==> (value_eq(a, b) == (x == y))),
        a matches GribValue::Callable(x) ==> (b matches GribValue::Callable(y) ==> (value_eq(a, b) == (x == y))),
        a matches GribValue::ModuleObject(x) ==> (b matches GribValue::ModuleObject(y) ==> (value_eq(a, b) == (x == y))),
    decreases a,
{
    match (a, b) {
        (GribValue::Error(x), GribValue::Error(y)) => law_equality(*x, *y),
        _ => {},
    }
}

/// `==` on two strings compares their texts, whatever their representation;
/// on anything else it is the equality of `law_equality`.  A string never
/// equals a value of another type.
pub proof fn law_exact_equality(a: GribValue, b: GribValue, strings: Seq<String>, gc: Gc)
    ensures
        a matches GribValue::String(x) ==> (b matches GribValue::String(y) ==> exact_equals_spec(a, b, strings, gc) == (
            text_of(x, strings, gc) == text_of(y, strings, gc))),
        !(a is String && b is String) ==> exact_equals_spec(a, b, strings, gc) == value_eq(a, b),
        !same_type(a, b) ==> !exact_equals_spec(a, b, strings, gc),
        a matches GribValue::Bool(x) ==> (b matches GribValue::Bool(y) ==> (exact_equals_spec(a, b, strings, gc) == (x == y))),
{
    law_equality(a, b);
}

/// Numbers compare as doubles: NaN equals nothing, every other number
/// equals itself, the two zeros are equal, and numbers with different bits
/// are otherwise unequal.
pub proof fn law_number_equality(x: u64, y: u64)
    ensures
        is_nan_bits(x) ==> !value_eq(GribValue::Number(x), GribValue::Number(y)),
        !is_nan_bits(x) ==> value_eq(GribValue::Number(x), GribValue::Number(x)),
        value_eq(GribValue::Number(0u64), GribValue::Number(0x8000_0000_0000_0000u64)),
        x != y && !(is_zero_bits(x) && is_zero_bits(y)) ==> !value_eq(GribValue::Number(x), GribValue::Number(y)),
{
    assert(is_zero_bits(0x8000_0000_0000_0000u64)) by (bit_vector);
    assert(is_zero_bits(0u64)) by (bit_vector);
    assert(!is_nan_bits(0x8000_0000_0000_0000u64)) by (bit_vector);
    assert(!is_nan_bits(0u64)) by (bit_vector);
}

/// A value is truthy unless it is zero, `nil`, an error, an empty string or
/// `false`: `true`, every non-zero number (NaN included), every non-empty
/// string, and every array, hash, procedure or module is truthy.
pub proof fn law_truthiness(v: GribValue, strings: Seq<String>, gc: Gc)
    ensures
        v is Nil || v is Error ==> !truthy_spec(v, strings, gc),
        v matches GribValue::Bool(b) ==> truthy_spec(v, strings, gc) == b,
        v matches GribValue::Number(n) ==> truthy_spec(v, strings, gc) == !is_zero_bits(n),
        v is Callable || v is ModuleObject || v is HeapValue ==> truthy_spec(v, strings, gc),
        v matches GribValue::String(s) ==> (text_of(s, strings, gc) matches Some(t) ==> truthy_spec(v, strings, gc) == (t.len() > 0)),
{
}

} // verus!
