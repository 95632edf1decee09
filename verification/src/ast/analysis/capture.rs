use vstd::prelude::*;

verus! {

/// `s` with `x` appended, unless `x` is already there.
pub open spec fn insert_unique(s: Seq<usize>, x: usize) -> Seq<usize> {
    if s.contains(x) {
        s
    } else {
        s.push(x)
    }
}

/// The names used inside one lambda (or getter, or setter) that are defined
/// outside it: those whose definition lies below `level`, the scope depth at
/// which the lambda begins.
#[derive(Debug)]
pub struct Capture {
    pub level: usize,
    pub identifiers: Vec<usize>,
}

impl Capture {
    pub fn new(level: usize) -> (c: Self)
        ensures
            c.level == level,
            c.identifiers@ == Seq::<usize>::empty(),
    {
        Capture { level, identifiers: Vec::new() }
    }

    /// Records `name`, once.
    pub fn insert(&mut self, name: usize)
        ensures
            final(self).level == old(self).level,
            final(self).identifiers@ == insert_unique(old(self).identifiers@, name),
    {
        let mut i: usize = 0;
        while i < self.identifiers.len()
            invariant
                i <= self.identifiers@.len(),
                forall|j: int| 0 <= j < i ==> self.identifiers@[j] != name,
            decreases self.identifiers@.len() - i,
        {
            if self.identifiers[i] == name {
                assert(self.identifiers@[i as int] == name);
                return;
            }
            i = i + 1;
        }
        self.identifiers.push(name);
    }
}

/// One capture per lambda being walked, the innermost last.
#[derive(Debug)]
pub struct CaptureStack {
    pub stack: Vec<Capture>,
}

/// A capture as a level and the names it holds.
pub open spec fn capture_view(c: Capture) -> (usize, Seq<usize>) {
    (c.level, c.identifiers@)
}

/// What a reference to `ident`, defined at depth `def_level`, does to one
/// capture: a lambda that begins deeper than the definition records it.
pub open spec fn capture_ref(c: (usize, Seq<usize>), ident: usize, def_level: usize) -> (usize, Seq<usize>) {
    if c.0 > def_level {
        (c.0, insert_unique(c.1, ident))
    } else {
        c
    }
}

impl CaptureStack {
    /// The captures, outermost first.
    pub open spec fn view_seq(&self) -> Seq<(usize, Seq<usize>)> {
        self.stack@.map_values(|c: Capture| capture_view(c))
    }

    pub fn new() -> (s: Self)
        ensures
            s.view_seq() == Seq::<(usize, Seq<usize>)>::empty(),
    {
        CaptureStack { stack: Vec::new() }
    }

    /// Opens a capture for a lambda that begins at depth `level`.
    pub fn add(&mut self, level: usize)
        ensures
            final(self).view_seq() == old(self).view_seq().push((level, Seq::<usize>::empty())),
    {
        self.stack.push(Capture::new(level));
        assert(self.view_seq() =~= old(self).view_seq().push((level, Seq::<usize>::empty())));
    }

    /// Closes the innermost capture and gives back the names it recorded
    /// (none when no capture is open).
    pub fn pop(&mut self) -> (names: Vec<usize>)
        ensures
            old(self).view_seq().len() == 0 ==> names@.len() == 0 && final(self).view_seq().len() == 0,
            old(self).view_seq().len() > 0 ==> {
                &&& names@ == old(self).view_seq().last().1
                &&& final(self).view_seq() == old(self).view_seq().drop_last()
            },
    {
        match self.stack.pop() {
            Some(c) => {
                assert(self.view_seq() =~= old(self).view_seq().drop_last());
                c.identifiers
            },
            None => Vec::new(),
        }
    }

    /// Records a reference to `ident`, defined at depth `current`, in every
    /// open capture that begins deeper than that.  Returns whether any did,
    /// that is whether the variable is used from inside a lambda.
    pub fn check_ref(&mut self, ident: usize, current: usize) -> (changed: bool)
        ensures
            final(self).view_seq().len() == old(self).view_seq().len(),
            forall|i: int| 0 <= i < old(self).view_seq().len() ==>
                #[trigger] final(self).view_seq()[i] == capture_ref(old(self).view_seq()[i], ident, current),
            changed == exists|i: int| 0 <= i < old(self).view_seq().len() && #[trigger] old(self).view_seq()[i].0 > current,
    {
        let mut changed = false;
        let mut i: usize = 0;
        let ghost old_v = self.view_seq();
        while i < self.stack.len()
            invariant
                i <= self.stack@.len(),
                old_v == old(self).view_seq(),
                self.view_seq().len() == old_v.len(),
                forall|j: int| 0 <= j < i ==> #[trigger] self.view_seq()[j] == capture_ref(old_v[j], ident, current),
                forall|j: int| i <= j < old_v.len() ==> #[trigger] self.view_seq()[j] == old_v[j],
                changed == exists|j: int| 0 <= j < i && #[trigger] old_v[j].0 > current,
            decreases self.stack@.len() - i,
        {
            let ghost before = self.stack@;
            let ghost vb = self.view_seq();
            assert(old_v[i as int] == self.view_seq()[i as int]);
            assert(self.view_seq()[i as int] == capture_view(before[i as int]));
            if self.stack[i].level > current {
                self.stack[i].insert(ident);
                changed = true;
                assert(self.stack@.len() == before.len());
                assert(forall|j: int| 0 <= j < before.len() && j != i ==> self.stack@[j] == before[j]);
            }
            proof {
                assert(self.view_seq()[i as int] == capture_view(self.stack@[i as int]));
                assert(self.view_seq()[i as int] == capture_ref(old_v[i as int], ident, current));
                assert forall|j: int| 0 <= j < old_v.len() && j != i implies #[trigger] self.view_seq()[j] == vb[j] by {
                    assert(self.stack@[j] == before[j]);
                    assert(vb[j] == capture_view(before[j]));
                }
            }
            i = i + 1;
        }
        changed
    }
}

} // verus!
