use std::borrow::Cow;
use crate::ast::native::{native_fn_names, NativeFunction};
use crate::ast::node::{Module, NativePackage, Procedure, Program};
use crate::runtime::slot::StackSlot;
use crate::text::{chars_match, chars_to_string, str_chars};
use vstd::prelude::*;

verus! {

/// Something that can be called: a native function, a procedure (of this
/// file, or of a loaded module), or a lambda with the hash it is bound to
/// and the heap slot of its captured variables.
#[derive(Clone, Copy, Debug, PartialEq, Eq, Structural)]
pub enum Callable {
    Native(NativeFunction),
    Procedure { module: Option<usize>, index: usize },
    Lambda { binding: Option<usize>, stack: Option<usize>, index: usize },
}

/// A lambda with the heap slots of its binding and of its captures.
#[derive(Clone, Copy, Debug, PartialEq, Eq, Structural)]
pub struct LambdaRef {
    pub binding: usize,
    pub index: usize,
    pub stack: usize,
}

/// The variables that a lambda captured.
#[derive(Clone, Copy, Debug, PartialEq, Eq, Structural)]
pub struct CapturedStack {}

/// A module as a value: a native package or a loaded module.
#[derive(Clone, Copy, Debug, PartialEq, Eq, Structural)]
pub enum ModuleObject {
    Native(NativePackage),
    Custom(usize),
}

/// A string value: one of the program's string table, one on the heap, a
/// single character, or a fixed text.
#[derive(Clone, Copy, Debug, PartialEq, Eq)]
pub enum GribString {
    Stored(usize),
    Heap(usize),
    Char(char),
    Static(&'static str),
}

/// A key of a hash: its string and a hash of the string's text.
#[derive(Clone, Copy, Debug)]
pub struct GribKey {
    pub hash: u64,
    pub string: GribString,
}

/// A heap slot whose kind of value is known.
#[derive(Clone, Copy, Debug, PartialEq, Eq, Structural)]
pub struct HashRef(pub usize);

#[derive(Clone, Copy, Debug, PartialEq, Eq, Structural)]
pub struct ArrayRef(pub usize);

#[derive(Clone, Copy, Debug, PartialEq, Eq, Structural)]
pub struct StringRef(pub usize);

#[derive(Clone, Copy, Debug, PartialEq, Eq, Structural)]
pub enum KnownIndex {
    Hash(HashRef),
    Array(ArrayRef),
    String(StringRef),
}

/// A value.  A number is held as the bits of its IEEE 754 double.
#[derive(Debug)]
pub enum GribValue {
    Nil,
    Number(u64),
    String(GribString),
    Callable(Callable),
    ModuleObject(Module),
    HeapValue(usize),
    Bool(bool),
    Error(Box<GribValue>),
}

impl GribValue {
    /// The heap slot the value points to, if any.
    pub open spec fn spec_ptr(self) -> Option<usize> {
        match self {
            GribValue::HeapValue(i) => Some(i),
            GribValue::String(GribString::Heap(i)) => Some(i),
            _ => None,
        }
    }

    pub fn ptr(&self) -> (r: Option<usize>)
        ensures
            r == self.spec_ptr(),
    {
        match self {
            GribValue::HeapValue(i) => Some(*i),
            GribValue::String(GribString::Heap(i)) => Some(*i),
            _ => None,
        }
    }

    pub fn is_nil(&self) -> (b: bool)
        ensures
            b == (*self is Nil),
    {
        match self {
            GribValue::Nil => true,
            _ => false,
        }
    }

    pub fn is_string(&self) -> (b: bool)
        ensures
            b == (*self is String),
    {
        match self {
            GribValue::String(_) => true,
            _ => false,
        }
    }

    pub fn is_err(&self) -> (b: bool)
        ensures
            b == (*self is Error),
    {
        match self {
            GribValue::Error(_) => true,
            _ => false,
        }
    }

    /// An error that carries a fixed message.
    pub fn err(s: &'static str) -> (v: Self)
        ensures
            v == GribValue::Error(Box::new(GribValue::String(GribString::Static(s)))),
    {
        GribValue::Error(Box::new(GribValue::String(GribString::Static(s))))
    }
}

/// A function behind an auto-property: a getter or setter with its
/// captures, a captured variable, or a fixed value.
#[derive(Debug)]
pub enum AccessFunc {
    Callable { index: usize, stack: Option<usize> },
    Captured(usize),
    Static(GribValue),
}

/// What a hash holds under a key.
#[derive(Debug)]
pub enum HashPropertyValue {
    AutoProp { get: Option<AccessFunc>, set: Option<AccessFunc> },
    Value(GribValue),
}

/// A hash: whether it may be changed, and its entries, each key (as told
/// apart by its hash) once, in the order in which they were added.
#[derive(Debug)]
pub struct HashValue {
    pub mutable: bool,
    pub values: Vec<(GribKey, HashPropertyValue)>,
}

/// What a heap slot holds.
#[derive(Debug)]
pub enum HeapValue {
    Array(Vec<GribValue>),
    Hash(HashValue),
    String(String),
    CapturedStack(Vec<StackSlot>),
}

/// The text of a string, borrowed, or a single character.
#[derive(Debug)]
pub enum GribStringRef<'a> {
    Ref(&'a str),
    Char(char),
}

/// `s` written `n` times.
pub open spec fn repeat_seq(s: Seq<char>, n: nat) -> Seq<char>
    decreases n,
{
    if n == 0 {
        Seq::empty()
    } else {
        repeat_seq(s, (n - 1) as nat) + s
    }
}

/// How `{:?}` writes a string: in double quotes, with its special
/// characters escaped.
pub uninterp spec fn debug_format(s: Seq<char>) -> Seq<char>;

/// Formats a string with `{:?}`.
///
/// Calls std's `Debug` for `str` (through `format!`); the contract claims
/// only that the result is a function of the text, named `debug_format`.
#[verifier::external_body]
fn debug_string(s: &str) -> (r: String)
    ensures
        r@ == debug_format(s@),
{
    format!("{:?}", s)
}

impl<'a> GribStringRef<'a> {
    /// The characters of the string.
    pub open spec fn text(&self) -> Seq<char> {
        match self {
            GribStringRef::Ref(r) => r@,
            GribStringRef::Char(c) => seq![*c],
        }
    }

    pub fn is_empty(&self) -> (b: bool)
        ensures
            b == (self.text().len() == 0),
    {
        match self {
            GribStringRef::Ref(s) => s.is_empty(),
            GribStringRef::Char(_) => false,
        }
    }

    /// The string written `amount` times.
    pub fn repeat(&self, amount: usize) -> (s: String)
        ensures
            s@ == repeat_seq(self.text(), amount as nat),
    {
        let unit: Vec<char> = match self {
            GribStringRef::Ref(r) => str_chars(r),
            GribStringRef::Char(c) => vec![*c],
        };
        let mut out: Vec<char> = Vec::new();
        let mut k: usize = 0;
        while k < amount
            invariant
                k <= amount,
                unit@ == self.text(),
                out@ == repeat_seq(self.text(), k as nat),
            decreases amount - k,
        {
            let mut j: usize = 0;
            let ghost start = out@;
            while j < unit.len()
                invariant
                    j <= unit@.len(),
                    out@ == start + unit@.take(j as int),
                decreases unit@.len() - j,
            {
                out.push(unit[j]);
                proof {
                    assert(unit@.take(j + 1) =~= unit@.take(j as int).push(unit@[j as int]));
                }
                j = j + 1;
            }
            proof {
                assert(unit@.take(j as int) =~= unit@);
            }
            k = k + 1;
        }
        chars_to_string(&out)
    }

    /// The character at position `ind`, if there is one.
    pub fn char_at(&self, ind: usize) -> (c: Option<char>)
        ensures
            ind < self.text().len() ==> c == Some(self.text()[ind as int]),
            ind >= self.text().len() ==> c is None,
    {
        match self {
            GribStringRef::Char(c) => if ind == 0 {
                Some(*c)
            } else {
                None
            },
            GribStringRef::Ref(r) => {
                let v = str_chars(r);
                if ind < v.len() {
                    Some(v[ind])
                } else {
                    None
                }
            },
        }
    }

    /// The string as `{:?}` writes it.
    pub fn stringify(&self) -> (s: String)
        ensures
            s@ == debug_format(self.text()),
    {
        match self {
            GribStringRef::Ref(r) => debug_string(r),
            GribStringRef::Char(c) => {
                let one = chars_to_string(&vec![*c]);
                proof {
                    assert(one@ =~= seq![*c]);
                }
                debug_string(one.as_str())
            },
        }
    }

    /// Hands the text, as a string slice, to `fnc` and gives back its result.
    pub fn with_str<R, F: Fn(&str) -> R>(&self, fnc: F) -> (r: R)
        requires
            forall|s: &str| #[trigger] fnc.requires((s,)),
        ensures
            exists|s: &str| s@ == self.text() && #[trigger] fnc.ensures((s,), r),
    {
        match self {
            GribStringRef::Ref(r) => fnc(r),
            GribStringRef::Char(c) => {
                let one = chars_to_string(&vec![*c]);
                proof {
                    assert(one@ =~= seq![*c]);
                }
                let s = one.as_str();
                fnc(s)
            },
        }
    }

    /// The text, borrowed where it is held elsewhere and owned for a single
    /// character.
    pub fn borrow(&self) -> (s: Cow<'_, str>)
        ensures
            s@ == self.text(),
            (*self) matches GribStringRef::Ref(r) ==> s == Cow::<'_, str>::Borrowed(r),
            (*self) is Char ==> s is Owned,
    {
        match self {
            GribStringRef::Ref(r) => Cow::Borrowed(*r),
            GribStringRef::Char(_) => Cow::Owned(self.to_text()),
        }
    }

    /// The text as an owned string.
    pub fn to_text(&self) -> (s: String)
        ensures
            s@ == self.text(),
    {
        match self {
            GribStringRef::Ref(r) => {
                let v = str_chars(r);
                chars_to_string(&v)
            },
            GribStringRef::Char(c) => {
                let one = chars_to_string(&vec![*c]);
                proof {
                    assert(one@ =~= seq![*c]);
                }
                one
            },
        }
    }
}

/// Whether procedure `f` is public and named `name`.
pub open spec fn offers(f: Procedure, strings: Seq<String>, name: Seq<char>) -> bool {
    f.public && f.identifier.data < strings.len() && strings[f.identifier.data as int]@ == name
}

impl Module {
    /// What a module object holds under `name`: the native function of
    /// that name, or the first public procedure of that name.
    pub fn get_callable(&self, name: &str, program: &Program) -> (r: Option<Callable>)
        ensures
            (*self) matches Module::Native(pkg) ==> {
                &&& r is None <==> !native_fn_names(pkg).contains(name@)
                &&& r matches Some(c) ==> c matches Callable::Native(f) && f.package == pkg && f.valid()
                    && native_fn_names(pkg)[f.index as int] == name@
            },
            (*self) matches Module::Custom(m) ==> {
                let fs = program.modules@[m as int].functions@;
                &&& r is None <==> !(m < program.modules@.len()
                    && exists|i: int| 0 <= i < fs.len() && offers(#[trigger] fs[i], program.strings@, name@))
                &&& r matches Some(c) ==> c matches Callable::Procedure { module: Some(mm), index: i }
                    && mm == m && i < fs.len() && offers(fs[i as int], program.strings@, name@)
                    && forall|j: int| 0 <= j < i ==> !offers(#[trigger] fs[j], program.strings@, name@)
            },
    {
        match self {
            Module::Native(pkg) => match pkg.fn_from_str(name) {
                Some(f) => Some(Callable::Native(f)),
                None => None,
            },
            Module::Custom(m) => {
                let m = *m;
                if m >= program.modules.len() {
                    return None;
                }
                let target = str_chars(name);
                let fs = &program.modules[m].functions;
                let mut i: usize = 0;
                while i < fs.len()
                    invariant
                        i <= fs@.len(),
                        *self == Module::Custom(m),
                        m < program.modules@.len(),
                        fs@ == program.modules@[m as int].functions@,
                        target@ == name@,
                        forall|j: int| 0 <= j < i ==> !offers(#[trigger] fs@[j], program.strings@, name@),
                    decreases fs@.len() - i,
                {
                    let id = fs[i].identifier.data;
                    if fs[i].public && id < program.strings.len() {
                        let text = str_chars(program.strings[id].as_str());
                        if chars_match(text.as_slice(), target.as_slice()) {
                            proof {
                                assert(program.strings@[id as int]@ == name@);
                                assert(offers(fs@[i as int], program.strings@, name@));
                            }
                            return Some(Callable::Procedure { module: Some(m), index: i });
                        }
                    }
                    i = i + 1;
                }
                None
            },
        }
    }
}

} // verus!
