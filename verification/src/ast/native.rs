use crate::ast::node::NativePackage;
use crate::text::{chars_match, str_chars};
use vstd::prelude::*;

verus! {

/// The functions of each native package, by name, in their fixed order.
pub open spec fn native_fn_names(p: NativePackage) -> Seq<Seq<char>> {
    match p {
        NativePackage::Math => seq!["sin"@, "cos"@, "tan"@, "asin"@, "acos"@, "atan"@, "sqrt"@, "ln"@, "log"@, "pow"@, "round"@, "floor"@, "ceil"@, "trunc"@, "min"@, "max"@, "random"@, "mathConst"@],
        NativePackage::Fmt => seq!["toString"@, "toNumber"@, "trim"@, "lowercase"@, "uppercase"@],
        NativePackage::Console => seq!["print"@, "println"@, "printError"@, "readlineSync"@],
        NativePackage::Array => seq!["push"@, "pop"@, "arrlen"@, "removeAt"@, "insertAt"@, "copyArr"@, "append"@, "concat"@, "slice"@],
        NativePackage::Error => seq!["err"@, "isErr"@, "errVal"@],
        NativePackage::SyncIo => seq!["readText"@, "writeText"@, "readBytes"@, "writeBytes"@, "isFile"@, "isDir"@, "pathContents"@],
        NativePackage::Str => seq!["split"@, "strlen"@, "substr"@, "indexOf"@, "replace"@],
        NativePackage::Hash => seq!["deleteKey"@, "hashMutable"@, "hasKey"@, "keys"@],
    }
}

/// A function of a native package: the package and the function's position
/// in the package's list.
#[derive(Clone, Copy, Debug, PartialEq, Eq, Structural)]
pub struct NativeFunction {
    pub package: NativePackage,
    pub index: usize,
}

impl NativeFunction {
    /// Whether the function exists in its package.
    pub open spec fn valid(self) -> bool {
        self.index < native_fn_names(self.package).len()
    }

    /// The function's name.
    pub fn fn_name(&self) -> (s: &'static str)
        requires
            self.valid(),
        ensures
            s@ == native_fn_names(self.package)[self.index as int],
    {
        let names = self.package.get_functions();
        names[self.index]
    }

    /// The package the function belongs to.
    pub fn mod_name(&self) -> (p: NativePackage)
        ensures
            p == self.package,
    {
        self.package
    }
}

impl NativePackage {
    /// The names of the package's functions, in their fixed order.
    pub fn get_functions(&self) -> (v: Vec<&'static str>)
        ensures
            v@.len() == native_fn_names(*self).len(),
            forall|i: int| 0 <= i < v@.len() ==> #[trigger] v@[i]@ == native_fn_names(*self)[i],
    {
        let v = match self {
            NativePackage::Math => vec!["sin", "cos", "tan", "asin", "acos", "atan", "sqrt", "ln", "log", "pow", "round", "floor", "ceil", "trunc", "min", "max", "random", "mathConst"],
            NativePackage::Fmt => vec!["toString", "toNumber", "trim", "lowercase", "uppercase"],
            NativePackage::Console => vec!["print", "println", "printError", "readlineSync"],
            NativePackage::Array => vec!["push", "pop", "arrlen", "removeAt", "insertAt", "copyArr", "append", "concat", "slice"],
            NativePackage::Error => vec!["err", "isErr", "errVal"],
            NativePackage::SyncIo => vec!["readText", "writeText", "readBytes", "writeBytes", "isFile", "isDir", "pathContents"],
            NativePackage::Str => vec!["split", "strlen", "substr", "indexOf", "replace"],
            NativePackage::Hash => vec!["deleteKey", "hashMutable", "hasKey", "keys"],
        };
        v
    }

    /// The package's function named `s`, if it has one.
    pub fn fn_from_str(&self, s: &str) -> (r: Option<NativeFunction>)
        ensures
            r matches Some(f) ==> f.package == *self && f.valid()
                && native_fn_names(*self)[f.index as int] == s@,
            r is None <==> !native_fn_names(*self).contains(s@),
    {
        let names = self.get_functions();
        let target = str_chars(s);
        let mut i: usize = 0;
        while i < names.len()
            invariant
                i <= names@.len(),
                names@.len() == native_fn_names(*self).len(),
                forall|j: int| 0 <= j < names@.len() ==> #[trigger] names@[j]@ == native_fn_names(*self)[j],
                target@ == s@,
                forall|j: int| 0 <= j < i ==> native_fn_names(*self)[j] != s@,
            decreases names@.len() - i,
        {
            let name = str_chars(names[i]);
            if chars_match(target.as_slice(), name.as_slice()) {
                return Some(NativeFunction { package: *self, index: i });
            }
            i = i + 1;
        }
        None
    }
}

} // verus!
