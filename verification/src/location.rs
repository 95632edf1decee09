use vstd::prelude::*;

verus! {

/// The row and column of a location, as mathematical numbers.
pub type LocView = (nat, nat);

/// What feeding one character does to a (row, column) pair: a newline starts a
/// new row at column zero, anything else advances the column.
pub open spec fn feed_spec(l: LocView, c: char) -> LocView {
    if c == '\n' {
        (l.0 + 1, 0)
    } else {
        (l.0, l.1 + 1)
    }
}

/// Feeds every character of `s`, in order.
pub open spec fn feed_all(l: LocView, s: Seq<char>) -> LocView
    decreases s.len(),
{
    if s.len() == 0 {
        l
    } else {
        feed_all(feed_spec(l, s[0]), s.drop_first())
    }
}

/// How many newlines `s` holds.
pub open spec fn newline_count(s: Seq<char>) -> nat
    decreases s.len(),
{
    if s.len() == 0 {
        0
    } else {
        newline_count(s.drop_last()) + if s.last() == '\n' { 1nat } else { 0nat }
    }
}

/// How many characters of `s` follow its last newline (all of them when it
/// has none).
pub open spec fn chars_after_newline(s: Seq<char>) -> nat
    decreases s.len(),
{
    if s.len() == 0 {
        0
    } else if s.last() == '\n' {
        0
    } else {
        chars_after_newline(s.drop_last()) + 1
    }
}

/// Feeding text moves the row down by its newlines; the column is the count
/// of characters after the last newline, or grows by the text's length when
/// it has none.  From the start of a file, row `1 + newlines` and that column.
pub proof fn law_feed_all_counts(l: LocView, s: Seq<char>)
    ensures
        feed_all(l, s).0 == l.0 + newline_count(s),
        feed_all(l, s).1 == if newline_count(s) == 0 { l.1 + s.len() } else { chars_after_newline(s) },
    decreases s.len(),
{
    if s.len() > 0 {
        let p = s.drop_last();
        law_feed_all_counts(l, p);
        lemma_feed_all_concat(l, p, seq![s.last()]);
        assert(p + seq![s.last()] =~= s);
        assert(seq![s.last()].drop_first() =~= Seq::<char>::empty());
        let x = feed_all(l, p);
        assert(feed_all(x, seq![s.last()]) == feed_all(feed_spec(x, s.last()), Seq::<char>::empty()));
        assert(feed_all(x, seq![s.last()]) == feed_spec(x, s.last()));
        assert(feed_all(l, s) == feed_spec(x, s.last()));
        if newline_count(p) == 0 && s.last() != '\n' {
            assert(chars_after_newline(p) == p.len()) by {
                lemma_no_newline_tail(p);
            }
        }
    }
}

proof fn lemma_no_newline_tail(s: Seq<char>)
    requires
        newline_count(s) == 0,
    ensures
        chars_after_newline(s) == s.len(),
    decreases s.len(),
{
    if s.len() > 0 {
        lemma_no_newline_tail(s.drop_last());
    }
}

/// Feeding never moves a location backwards, and moves it by at most one row
/// or column per character.
pub proof fn lemma_feed_all_bounds(l: LocView, s: Seq<char>)
    ensures
        l.0 <= feed_all(l, s).0 <= l.0 + s.len(),
        feed_all(l, s).1 <= l.1 + s.len(),
    decreases s.len(),
{
    if s.len() > 0 {
        lemma_feed_all_bounds(feed_spec(l, s[0]), s.drop_first());
    }
}

/// Feeding `a` and then `b` is feeding `a + b`.
pub proof fn lemma_feed_all_concat(l: LocView, a: Seq<char>, b: Seq<char>)
    ensures
        feed_all(feed_all(l, a), b) == feed_all(l, a + b),
    decreases a.len(),
{
    if a.len() > 0 {
        assert((a + b).drop_first() =~= a.drop_first() + b);
        lemma_feed_all_concat(feed_spec(l, a[0]), a.drop_first(), b);
    } else {
        assert(a + b =~= b);
    }
}

/// Feeding a subrange one character further.
pub proof fn lemma_feed_all_step(l: LocView, s: Seq<char>, i: int, j: int)
    requires
        0 <= i <= j < s.len(),
    ensures
        feed_all(l, s.subrange(i, j + 1)) == feed_spec(feed_all(l, s.subrange(i, j)), s[j]),
{
    lemma_feed_all_concat(l, s.subrange(i, j), seq![s[j]]);
    assert(s.subrange(i, j) + seq![s[j]] =~= s.subrange(i, j + 1));
    let x = feed_all(l, s.subrange(i, j));
    assert(seq![s[j]].drop_first() =~= Seq::<char>::empty());
    assert(feed_all(x, seq![s[j]]) == feed_all(feed_spec(x, s[j]), Seq::<char>::empty()));
}

/// A position in source text: a one-based row and a zero-based column.
#[derive(Debug)]
pub struct Location {
    row: usize,
    column: usize,
}

impl View for Location {
    type V = LocView;

    closed spec fn view(&self) -> LocView {
        (self.row as nat, self.column as nat)
    }
}

impl Clone for Location {
    fn clone(&self) -> (res: Self)
        ensures
            res == *self,
    {
        Location { row: self.row, column: self.column }
    }
}

impl Location {
    /// The location at the start of a file.
    pub fn new() -> (l: Self)
        ensures
            l@ == (1nat, 0nat),
    {
        Self { row: 1, column: 0 }
    }

    /// A location at the given row and column.
    pub fn at(row: usize, column: usize) -> (l: Self)
        ensures
            l@ == (row as nat, column as nat),
    {
        Self { row, column }
    }

    /// Moves past one character.
    pub fn feed(&mut self, c: char)
        requires
            old(self)@.0 < usize::MAX,
            old(self)@.1 < usize::MAX,
        ensures
            final(self)@ == feed_spec(old(self)@, c),
    {
        if c == '\n' {
            self.row = self.row + 1;
            self.column = 0;
        } else {
            self.column = self.column + 1;
        }
    }

    pub fn get_row(&self) -> (r: usize)
        ensures
            r == self@.0,
    {
        self.row
    }

    pub fn get_col(&self) -> (c: usize)
        ensures
            c == self@.1,
    {
        self.column
    }

    /// Whether two locations are the same.
    pub fn same_as(&self, other: &Location) -> (b: bool)
        ensures
            b == (self@ == other@),
    {
        self.row == other.row && self.column == other.column
    }
}

impl Default for Location {
    fn default() -> (l: Self)
        ensures
            l@ == (0nat, 0nat),
    {
        Location { row: 0, column: 0 }
    }
}

/// A value together with the locations where it starts and ends.
#[derive(Debug)]
pub struct Located<T> {
    pub data: T,
    pub start: Location,
    pub end: Location,
}

impl<T> Located<T> {
    pub fn with_loc(data: T, start: Location, end: Location) -> (l: Located<T>)
        ensures
            l.data == data,
            l.start@ == start@,
            l.end@ == end@,
    {
        Located { start, end, data }
    }
}

} // verus!
