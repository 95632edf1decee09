use vstd::prelude::*;

verus! {

/// Where a construct stands: in a loop, in a procedure, in a lambda.
#[derive(Clone, Copy, Debug, PartialEq, Eq, Structural)]
pub struct Scope {
    pub in_loop: bool,
    pub in_proc: bool,
    pub in_lam: bool,
}

impl Scope {
    pub fn new() -> (s: Self)
        ensures
            !s.in_loop && !s.in_proc && !s.in_lam,
    {
        Self { in_loop: false, in_proc: false, in_lam: false }
    }

    pub fn fn_proc() -> (s: Self)
        ensures
            !s.in_loop && s.in_proc && !s.in_lam,
    {
        Self { in_loop: false, in_proc: true, in_lam: false }
    }

    pub fn fn_lam() -> (s: Self)
        ensures
            !s.in_loop && s.in_proc && s.in_lam,
    {
        Self { in_loop: false, in_proc: true, in_lam: true }
    }

    pub fn with_loop(self, in_loop: bool) -> (s: Self)
        ensures
            s.in_loop == in_loop,
            s.in_proc == self.in_proc,
            s.in_lam == self.in_lam,
    {
        let mut s = self;
        s.in_loop = in_loop;
        s
    }
}

} // verus!
