use super::{ParseError, ParseResult};
use crate::lex::tokens::{Grouper, SpecToken, Token};
use crate::location::Located;
use vstd::prelude::*;

verus! {

/// A stream of located tokens that is read front to back.
pub struct Tokens {
    items: Vec<Located<Token>>,
    pos: usize,
}

impl Tokens {
    /// The tokens not read yet.
    pub closed spec fn rest(&self) -> Seq<Located<Token>> {
        if self.pos <= self.items@.len() {
            self.items@.skip(self.pos as int)
        } else {
            Seq::empty()
        }
    }

    pub fn new(items: Vec<Located<Token>>) -> (t: Self)
        ensures
            t.rest() == items@,
    {
        let t = Tokens { items, pos: 0 };
        assert(t.items@.skip(0) =~= t.items@);
        t
    }

    pub fn is_empty(&self) -> (b: bool)
        ensures
            b == (self.rest().len() == 0),
    {
        !(self.pos < self.items.len())
    }

    /// Reads the next token.
    pub fn next(&mut self) -> (r: Option<Located<Token>>)
        ensures
            old(self).rest().len() > 0 ==> r == Some(old(self).rest()[0]) && final(self).rest() == old(self).rest().drop_first(),
            old(self).rest().len() == 0 ==> r is None && final(self).rest() == old(self).rest(),
    {
        if self.pos < self.items.len() {
            let t = self.items[self.pos].clone();
            self.pos = self.pos + 1;
            assert(self.rest() =~= old(self).rest().drop_first());
            Some(t)
        } else {
            None
        }
    }

    /// The next token, without reading it.
    pub fn peek(&self) -> (r: Option<&Located<Token>>)
        ensures
            self.rest().len() > 0 ==> r == Some(&self.rest()[0]),
            self.rest().len() == 0 ==> r is None,
    {
        if self.pos < self.items.len() {
            Some(&self.items[self.pos])
        } else {
            None
        }
    }

    /// Reads the next token when its kind is `kind`.
    pub fn next_if_is(&mut self, kind: &Token) -> (r: Option<Located<Token>>)
        ensures
            old(self).rest().len() > 0 && old(self).rest()[0].data@ == kind@ ==> r == Some(old(self).rest()[0]) && final(self).rest() == old(self).rest().drop_first(),
            !(old(self).rest().len() > 0 && old(self).rest()[0].data@ == kind@) ==> r is None && final(self).rest() == old(self).rest(),
    {
        let hit = match self.peek() {
            Some(t) => same_token(&t.data, kind),
            None => false,
        };
        if hit {
            self.next()
        } else {
            None
        }
    }

    /// Reads the next token when it is not an operator.
    pub fn next_if_not_op(&mut self) -> (r: Option<Located<Token>>)
        ensures
            old(self).rest().len() > 0 && !crate::lex::tokens::spec_is_op(old(self).rest()[0].data@) ==> r == Some(old(self).rest()[0]) && final(self).rest() == old(self).rest().drop_first(),
            !(old(self).rest().len() > 0 && !crate::lex::tokens::spec_is_op(old(self).rest()[0].data@)) ==> r is None && final(self).rest() == old(self).rest(),
    {
        next_if(self, not_op)
    }

    /// Reads every remaining token.
    pub fn collect_rest(&mut self) -> (v: Vec<Located<Token>>)
        ensures
            v@ == old(self).rest(),
            final(self).rest().len() == 0,
    {
        let mut v: Vec<Located<Token>> = Vec::new();
        let ghost start = self.rest();
        while !self.is_empty()
            invariant
                v@ + self.rest() == start,
            decreases self.rest().len(),
        {
            let t = self.next();
            match t {
                Some(x) => {
                    v.push(x);
                    assert(v@ + self.rest() =~= start);
                },
                None => {},
            }
        }
        assert(v@ + self.rest() =~= v@);
        v
    }
}

/// Whether a token is not an operator.
fn not_op(t: &Located<Token>) -> (b: bool)
    ensures
        b == !crate::lex::tokens::spec_is_op(t.data@),
{
    !t.data.is_op()
}

/// Whether `a` is what is left of `b` once some of its first tokens are read.
pub open spec fn is_suffix(a: Seq<Located<Token>>, b: Seq<Located<Token>>) -> bool {
    a.len() <= b.len() && a == b.skip(b.len() - a.len())
}

/// Reading `k` tokens leaves a suffix.
pub proof fn lemma_skip_suffix(b: Seq<Located<Token>>, k: int)
    requires
        0 <= k <= b.len(),
    ensures
        is_suffix(b.skip(k), b),
{
    assert(b.skip(k) =~= b.skip(b.len() - b.skip(k).len()));
}

/// A suffix of a suffix is a suffix.
pub proof fn lemma_suffix_trans(a: Seq<Located<Token>>, b: Seq<Located<Token>>, c: Seq<Located<Token>>)
    requires
        is_suffix(a, b),
        is_suffix(b, c),
    ensures
        is_suffix(a, c),
{
    assert(a =~= c.skip(c.len() - a.len()));
}

/// How many tokens `zero_level_preserve` reads is at most all of them.
pub proof fn lemma_zero_level_read_bounds(ts: Seq<Located<Token>>, stop: Stop)
    ensures
        0 <= zero_level_read(ts, stop) <= ts.len(),
{
    lemma_level_scan_bounds(crate::lex::tokens::token_kinds(ts), stop, 0, Seq::empty());
}

/// Reads the next token when `predicate` holds of it; otherwise reads
/// nothing.
pub fn next_if<F: Fn(&Located<Token>) -> bool>(tokens: &mut Tokens, predicate: F) -> (r: Option<Located<Token>>)
    requires
        forall|t: &Located<Token>| #[trigger] predicate.requires((t,)),
    ensures
        r is Some ==> old(tokens).rest().len() > 0 && predicate.ensures((&old(tokens).rest()[0],), true) && r == Some(
            old(tokens).rest()[0],
        ) && final(tokens).rest() == old(tokens).rest().drop_first(),
        r is None ==> (old(tokens).rest().len() == 0 || predicate.ensures((&old(tokens).rest()[0],), false))
            && final(tokens).rest() == old(tokens).rest(),
{
    let hit = match tokens.peek() {
        Some(t) => predicate(t),
        None => false,
    };
    if hit {
        tokens.next()
    } else {
        None
    }
}

/// Whether two tokens are the same token.
pub fn same_token(a: &Token, b: &Token) -> (r: bool)
    ensures
        r == (a@ == b@),
{
    match (a, b) {
        (Token::String(x), Token::String(y)) => crate::text::string_eq(x, y),
        (Token::Identifier(x), Token::Identifier(y)) => crate::text::string_eq(x, y),
        (Token::Number(x), Token::Number(y)) => match (x, y) {
            (crate::lex::tokens::NumberLit::Decimal(p), crate::lex::tokens::NumberLit::Decimal(q)) => crate::text::string_eq(p, q),
            (crate::lex::tokens::NumberLit::NaN, crate::lex::tokens::NumberLit::NaN) => true,
            (crate::lex::tokens::NumberLit::Infinity, crate::lex::tokens::NumberLit::Infinity) => true,
            _ => false,
        },
        (Token::BinaryOp(x), Token::BinaryOp(y)) => *x == *y,
        (Token::UnaryOp(x), Token::UnaryOp(y)) => *x == *y,
        (Token::AssignOp(x), Token::AssignOp(y)) => *x == *y,
        (Token::Arrow, Token::Arrow) => true,
        (Token::Period, Token::Period) => true,
        (Token::Spread, Token::Spread) => true,
        (Token::MutableHash, Token::MutableHash) => true,
        (Token::Hash, Token::Hash) => true,
        (Token::Keyword(x), Token::Keyword(y)) => *x == *y,
        (Token::Bool(x), Token::Bool(y)) => *x == *y,
        (Token::Comma, Token::Comma) => true,
        (Token::Colon, Token::Colon) => true,
        (Token::Semicolon, Token::Semicolon) => true,
        (Token::Pipe, Token::Pipe) => true,
        (Token::OpenGroup(x), Token::OpenGroup(y)) => *x == *y,
        (Token::CloseGroup(x), Token::CloseGroup(y)) => *x == *y,
        _ => false,
    }
}

/// The tokens that end a run of tokens collected at nesting level zero.
#[derive(Clone, Copy, Debug, PartialEq, Eq, Structural)]
pub enum Stop {
    Comma,
    Semicolon,
    SemicolonOrComma,
    Pipe,
    Open(Grouper),
    Close(Grouper),
}

pub open spec fn stops(stop: Stop, t: SpecToken) -> bool {
    match stop {
        Stop::Comma => t is Comma,
        Stop::Semicolon => t is Semicolon,
        Stop::SemicolonOrComma => t is Semicolon || t is Comma,
        Stop::Pipe => t is Pipe,
        Stop::Open(g) => t == SpecToken::OpenGroup(g),
        Stop::Close(g) => t == SpecToken::CloseGroup(g),
    }
}

fn is_stop(stop: Stop, t: &Token) -> (b: bool)
    ensures
        b == stops(stop, t@),
{
    match stop {
        Stop::Comma => matches!(t, Token::Comma),
        Stop::Semicolon => matches!(t, Token::Semicolon),
        Stop::SemicolonOrComma => matches!(t, Token::Semicolon) || matches!(t, Token::Comma),
        Stop::Pipe => matches!(t, Token::Pipe),
        Stop::Open(g) => match t {
            Token::OpenGroup(h) => *h == g,
            _ => false,
        },
        Stop::Close(g) => match t {
            Token::CloseGroup(h) => *h == g,
            _ => false,
        },
    }
}

/// How a scan at nesting level zero ends.
pub enum Level {
    /// The stop token is at this index.
    Found(int),
    /// The input ends first.
    NotFound,
    /// The token at this index closes a group that is not open.
    Mismatch(int),
}

/// Scanning `ts` from index `i` with the groups in `stack` open.
pub open spec fn level_scan(ts: Seq<SpecToken>, stop: Stop, i: int, stack: Seq<Grouper>) -> Level
    decreases ts.len() - i,
{
    if i < 0 || i >= ts.len() {
        Level::NotFound
    } else if stack.len() == 0 && stops(stop, ts[i]) {
        Level::Found(i)
    } else {
        match ts[i] {
            SpecToken::OpenGroup(g) => level_scan(ts, stop, i + 1, stack.push(g)),
            SpecToken::CloseGroup(g) => if stack.len() > 0 && stack.last() == g {
                level_scan(ts, stop, i + 1, stack.drop_last())
            } else {
                Level::Mismatch(i)
            },
            _ => level_scan(ts, stop, i + 1, stack),
        }
    }
}

pub proof fn lemma_level_scan_bounds(ts: Seq<SpecToken>, stop: Stop, i: int, stack: Seq<Grouper>)
    requires
        0 <= i,
    ensures
        match level_scan(ts, stop, i, stack) {
            Level::Found(k) => i <= k < ts.len(),
            Level::Mismatch(k) => i <= k < ts.len(),
            Level::NotFound => true,
        },
    decreases ts.len() - i,
{
    if i < ts.len() && !(stack.len() == 0 && stops(stop, ts[i])) {
        match ts[i] {
            SpecToken::OpenGroup(g) => lemma_level_scan_bounds(ts, stop, i + 1, stack.push(g)),
            SpecToken::CloseGroup(g) => if stack.len() > 0 && stack.last() == g {
                lemma_level_scan_bounds(ts, stop, i + 1, stack.drop_last())
            },
            _ => lemma_level_scan_bounds(ts, stop, i + 1, stack),
        }
    }
}

/// The outcome of `zero_level_preserve` on the token stream `ts`.
pub open spec fn zero_level_spec(ts: Seq<Located<Token>>, stop: Stop) -> ParseResult<Result<(Seq<Located<Token>>, Located<Token>), Seq<Located<Token>>>> {
    match level_scan(crate::lex::tokens::token_kinds(ts), stop, 0, Seq::empty()) {
        Level::Found(k) => Ok(Ok((ts.take(k), ts[k]))),
        Level::NotFound => Ok(Err(ts)),
        Level::Mismatch(k) => Err(ParseError::UnexpectedToken(ts[k])),
    }
}

/// How many tokens `zero_level_preserve` reads.
pub open spec fn zero_level_read(ts: Seq<Located<Token>>, stop: Stop) -> int {
    match level_scan(crate::lex::tokens::token_kinds(ts), stop, 0, Seq::empty()) {
        Level::Found(k) => k + 1,
        Level::NotFound => ts.len() as int,
        Level::Mismatch(k) => k + 1,
    }
}

/// Reads tokens up to the first stop token that is outside every group,
/// returning the tokens before it and the stop token, or every token when
/// there is no such stop token.  A closing grouper that does not match the
/// innermost open group is an error.
pub fn zero_level_preserve(tokens: &mut Tokens, stop: Stop) -> (r: ParseResult<Result<(Vec<Located<Token>>, Located<Token>), Vec<Located<Token>>>>)
    ensures
        match (r, zero_level_spec(old(tokens).rest(), stop)) {
            (Ok(Ok((v, t))), Ok(Ok((sv, st)))) => v@ == sv && t == st,
            (Ok(Err(v)), Ok(Err(sv))) => v@ == sv,
            (Err(e), Err(se)) => e == se,
            _ => false,
        },
        final(tokens).rest() == old(tokens).rest().skip(zero_level_read(old(tokens).rest(), stop)),
        final(tokens).rest().len() <= old(tokens).rest().len(),
        r matches Ok(Ok((v, _))) ==> v@.len() + final(tokens).rest().len() < old(tokens).rest().len(),
        r matches Ok(Err(v)) ==> v@.len() <= old(tokens).rest().len(),
{
    let ghost ts = tokens.rest();
    let ghost kinds = crate::lex::tokens::token_kinds(ts);
    let mut stack: Vec<Grouper> = Vec::new();
    let mut selected: Vec<Located<Token>> = Vec::new();
    let ghost mut i: int = 0;
    proof {
        lemma_level_scan_bounds(kinds, stop, 0, Seq::empty());
    }
    loop
        invariant
            0 <= i <= ts.len(),
            ts == old(tokens).rest(),
            tokens.rest() == ts.skip(i),
            selected@ == ts.take(i),
            kinds == crate::lex::tokens::token_kinds(ts),
            level_scan(kinds, stop, 0, Seq::empty()) == level_scan(kinds, stop, i, stack@),
        decreases ts.len() - i,
    {
        let next = tokens.next();
        match next {
            None => {
                assert(ts.take(i) =~= ts) by {
                    assert(ts.skip(i).len() == 0);
                }
                return Ok(Err(selected));
            },
            Some(token) => {
                assert(token == ts[i]);
                assert(kinds[i] == token.data@);
                if stack.len() == 0 && is_stop(stop, &token.data) {
                    assert(tokens.rest() =~= ts.skip(i + 1));
                    return Ok(Ok((selected, token)));
                }
                match &token.data {
                    Token::OpenGroup(g) => {
                        stack.push(*g);
                    },
                    Token::CloseGroup(g) => {
                        let top = stack.pop();
                        match top {
                            Some(lg) => {
                                if lg != *g {
                                    assert(tokens.rest() =~= ts.skip(i + 1));
                                    return Err(ParseError::UnexpectedToken(token));
                                }
                            },
                            None => {
                                assert(tokens.rest() =~= ts.skip(i + 1));
                                return Err(ParseError::UnexpectedToken(token));
                            },
                        }
                    },
                    _ => {},
                }
                selected.push(token);
                proof {
                    i = i + 1;
                }
                assert(selected@ =~= ts.take(i));
                assert(tokens.rest() =~= ts.skip(i));
            },
        }
    }
}

/// Like `zero_level_preserve`, but running out of tokens is an error.
pub fn zero_level(tokens: &mut Tokens, stop: Stop) -> (r: ParseResult<(Vec<Located<Token>>, Located<Token>)>)
    ensures
        match (r, zero_level_spec(old(tokens).rest(), stop)) {
            (Ok((v, t)), Ok(Ok((sv, st)))) => v@ == sv && t == st,
            (Err(e), Ok(Err(_))) => e is UnexpectedEOF,
            (Err(e), Err(se)) => e == se,
            _ => false,
        },
        final(tokens).rest() == old(tokens).rest().skip(zero_level_read(old(tokens).rest(), stop)),
        final(tokens).rest().len() <= old(tokens).rest().len(),
        r matches Ok((v, _)) ==> v@.len() + final(tokens).rest().len() < old(tokens).rest().len(),
{
    match zero_level_preserve(tokens, stop) {
        Ok(Ok(found)) => Ok(found),
        Ok(Err(_)) => Err(ParseError::UnexpectedEOF),
        Err(e) => Err(e),
    }
}

/// Reads the tokens of a group whose opening grouper was just read, up to
/// the matching closing grouper, which is returned beside them.
pub fn take_until(tokens: &mut Tokens, with: Grouper) -> (r: ParseResult<(Vec<Located<Token>>, Located<Token>)>)
    ensures
        match (r, zero_level_spec(old(tokens).rest(), Stop::Close(with))) {
            (Ok((v, t)), Ok(Ok((sv, st)))) => v@ == sv && t == st,
            (Err(e), Ok(Err(_))) => e is UnexpectedEOF,
            (Err(e), Err(se)) => e == se,
            _ => false,
        },
        final(tokens).rest() == old(tokens).rest().skip(zero_level_read(old(tokens).rest(), Stop::Close(with))),
        final(tokens).rest().len() <= old(tokens).rest().len(),
        r matches Ok((v, _)) ==> v@.len() + final(tokens).rest().len() < old(tokens).rest().len(),
{
    zero_level(tokens, Stop::Close(with))
}

} // verus!
