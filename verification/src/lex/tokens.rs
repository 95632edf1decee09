use crate::location::{LocView, Located};
use crate::operators::{Assignment, Binary, Unary};
use vstd::prelude::*;

verus! {

#[derive(Clone, Copy, Debug, PartialEq, Eq, Structural)]
pub enum Grouper {
    Bracket,
    Parentheses,
    Brace,
}

#[derive(Clone, Copy, Debug, PartialEq, Eq, Structural)]
pub enum Keyword {
    Proc,
    Lam,
    Return,
    Decl,
    Im,
    While,
    For,
    Nil,
    If,
    Else,
    Break,
    Continue,
    Get,
    Setter,
    Import,
    Public,
    From,
    This,
}

/// The source text of each keyword.
pub open spec fn keyword_text(k: Keyword) -> Seq<char> {
    match k {
        Keyword::Proc => seq!['p', 'r', 'o', 'c'],
        Keyword::Lam => seq!['l', 'a', 'm'],
        Keyword::Return => seq!['r', 'e', 't', 'u', 'r', 'n'],
        Keyword::Decl => seq!['d', 'e', 'c', 'l'],
        Keyword::Im => seq!['i', 'm'],
        Keyword::While => seq!['w', 'h', 'i', 'l', 'e'],
        Keyword::For => seq!['f', 'o', 'r'],
        Keyword::Nil => seq!['n', 'i', 'l'],
        Keyword::If => seq!['i', 'f'],
        Keyword::Else => seq!['e', 'l', 's', 'e'],
        Keyword::Break => seq!['b', 'r', 'e', 'a', 'k'],
        Keyword::Continue => seq!['c', 'o', 'n', 't', 'i', 'n', 'u', 'e'],
        Keyword::Get => seq!['g', 'e', 't'],
        Keyword::Setter => seq!['s', 'e', 't'],
        Keyword::Import => seq!['i', 'm', 'p', 'o', 'r', 't'],
        Keyword::Public => seq!['p', 'u', 'b', 'l', 'i', 'c'],
        Keyword::From => seq!['f', 'r', 'o', 'm'],
        Keyword::This => seq!['t', 'h', 'i', 's'],
    }
}

/// The keyword spelled by `s`, if any.
pub open spec fn keyword_of(s: Seq<char>) -> Option<Keyword> {
    if exists|k: Keyword| keyword_text(k) == s {
        Some(choose|k: Keyword| keyword_text(k) == s)
    } else {
        None
    }
}

/// Distinct keywords are spelled differently.
pub proof fn lemma_keyword_text_injective(a: Keyword, b: Keyword)
    ensures
        keyword_text(a) == keyword_text(b) ==> a == b,
{
    if keyword_text(a) == keyword_text(b) {
        assert(keyword_text(a).len() == keyword_text(b).len());
        assert(keyword_text(a)[0] == keyword_text(b)[0]);
        assert(keyword_text(a)[1] == keyword_text(b)[1]);
        assert(keyword_text(a).len() > 2 ==> keyword_text(a)[2] == keyword_text(b)[2]);
        assert(keyword_text(a).len() > 3 ==> keyword_text(a)[3] == keyword_text(b)[3]);
    }
}

impl Keyword {
    /// Every keyword.
    pub fn all() -> (v: Vec<Keyword>)
        ensures
            forall|k: Keyword| v@.contains(k),
    {
        let v = vec![
            Keyword::Proc,
            Keyword::Lam,
            Keyword::Return,
            Keyword::Decl,
            Keyword::Im,
            Keyword::While,
            Keyword::For,
            Keyword::Nil,
            Keyword::If,
            Keyword::Else,
            Keyword::Break,
            Keyword::Continue,
            Keyword::Get,
            Keyword::Setter,
            Keyword::Import,
            Keyword::Public,
            Keyword::From,
            Keyword::This,
        ];
        assert forall|k: Keyword| v@.contains(k) by {
            match k {
                Keyword::Proc => assert(v@[0] == k),
                Keyword::Lam => assert(v@[1] == k),
                Keyword::Return => assert(v@[2] == k),
                Keyword::Decl => assert(v@[3] == k),
                Keyword::Im => assert(v@[4] == k),
                Keyword::While => assert(v@[5] == k),
                Keyword::For => assert(v@[6] == k),
                Keyword::Nil => assert(v@[7] == k),
                Keyword::If => assert(v@[8] == k),
                Keyword::Else => assert(v@[9] == k),
                Keyword::Break => assert(v@[10] == k),
                Keyword::Continue => assert(v@[11] == k),
                Keyword::Get => assert(v@[12] == k),
                Keyword::Setter => assert(v@[13] == k),
                Keyword::Import => assert(v@[14] == k),
                Keyword::Public => assert(v@[15] == k),
                Keyword::From => assert(v@[16] == k),
                Keyword::This => assert(v@[17] == k),
            }
        }
        v
    }

    /// The characters of the keyword.
    pub fn text(&self) -> (v: Vec<char>)
        ensures
            v@ == keyword_text(*self),
    {
        let v = match self {
            Keyword::Proc => vec!['p', 'r', 'o', 'c'],
            Keyword::Lam => vec!['l', 'a', 'm'],
            Keyword::Return => vec!['r', 'e', 't', 'u', 'r', 'n'],
            Keyword::Decl => vec!['d', 'e', 'c', 'l'],
            Keyword::Im => vec!['i', 'm'],
            Keyword::While => vec!['w', 'h', 'i', 'l', 'e'],
            Keyword::For => vec!['f', 'o', 'r'],
            Keyword::Nil => vec!['n', 'i', 'l'],
            Keyword::If => vec!['i', 'f'],
            Keyword::Else => vec!['e', 'l', 's', 'e'],
            Keyword::Break => vec!['b', 'r', 'e', 'a', 'k'],
            Keyword::Continue => vec!['c', 'o', 'n', 't', 'i', 'n', 'u', 'e'],
            Keyword::Get => vec!['g', 'e', 't'],
            Keyword::Setter => vec!['s', 'e', 't'],
            Keyword::Import => vec!['i', 'm', 'p', 'o', 'r', 't'],
            Keyword::Public => vec!['p', 'u', 'b', 'l', 'i', 'c'],
            Keyword::From => vec!['f', 'r', 'o', 'm'],
            Keyword::This => vec!['t', 'h', 'i', 's'],
        };
        assert(v@ =~= keyword_text(*self));
        v
    }

    /// The keyword as a string.
    pub fn str(&self) -> (s: String)
        ensures
            s@ == keyword_text(*self),
    {
        crate::text::chars_to_string(&self.text())
    }

    /// The keyword spelled by the characters `s`, if any.
    pub fn from_chars(s: &[char]) -> (k: Option<Keyword>)
        ensures
            k == keyword_of(s@),
    {
        let all = Keyword::all();
        let mut i: usize = 0;
        while i < all.len()
            invariant
                i <= all@.len(),
                forall|k: Keyword| all@.contains(k),
                forall|j: int| 0 <= j < i ==> keyword_text(#[trigger] all@[j]) != s@,
            decreases all@.len() - i,
        {
            let k = all[i];
            let t = k.text();
            if crate::text::chars_match(s, t.as_slice()) {
                proof {
                    assert(keyword_text(k) == s@);
                    let c = choose|k2: Keyword| keyword_text(k2) == s@;
                    lemma_keyword_text_injective(k, c);
                }
                return Some(k);
            }
            i = i + 1;
        }
        proof {
            if exists|k: Keyword| keyword_text(k) == s@ {
                let k = choose|k: Keyword| keyword_text(k) == s@;
                assert(all@.contains(k));
                let j = choose|j: int| 0 <= j < all@.len() && all@[j] == k;
                assert(keyword_text(all@[j]) != s@);
            }
        }
        None
    }

    /// The keyword spelled by `s`, if any.
    pub fn from_str(s: &str) -> (k: Option<Keyword>)
        ensures
            k == keyword_of(s@),
    {
        let v = crate::text::str_chars(s);
        Keyword::from_chars(v.as_slice())
    }
}

/// A number literal as written in source: the digits with at most one period,
/// or one of the two special names.
#[derive(Debug)]
pub enum NumberLit {
    Decimal(String),
    NaN,
    Infinity,
}

pub enum SpecNumberLit {
    Decimal(Seq<char>),
    NaN,
    Infinity,
}

impl View for NumberLit {
    type V = SpecNumberLit;

    open spec fn view(&self) -> SpecNumberLit {
        match self {
            NumberLit::Decimal(s) => SpecNumberLit::Decimal(s@),
            NumberLit::NaN => SpecNumberLit::NaN,
            NumberLit::Infinity => SpecNumberLit::Infinity,
        }
    }
}

impl Clone for NumberLit {
    fn clone(&self) -> (r: Self)
        ensures
            r == *self,
    {
        match self {
            NumberLit::Decimal(s) => NumberLit::Decimal(s.clone()),
            NumberLit::NaN => NumberLit::NaN,
            NumberLit::Infinity => NumberLit::Infinity,
        }
    }
}

#[derive(Debug)]
pub enum Token {
    String(String),
    Number(NumberLit),
    Identifier(String),
    BinaryOp(Binary),
    UnaryOp(Unary),
    AssignOp(Assignment),
    Arrow,
    Period,
    Spread,
    MutableHash,
    Hash,
    Keyword(Keyword),
    Bool(bool),
    Comma,
    Colon,
    Semicolon,
    Pipe,
    OpenGroup(Grouper),
    CloseGroup(Grouper),
}

/// A token with its text taken as a sequence of characters.
pub enum SpecToken {
    String(Seq<char>),
    Number(SpecNumberLit),
    Identifier(Seq<char>),
    BinaryOp(Binary),
    UnaryOp(Unary),
    AssignOp(Assignment),
    Arrow,
    Period,
    Spread,
    MutableHash,
    Hash,
    Keyword(Keyword),
    Bool(bool),
    Comma,
    Colon,
    Semicolon,
    Pipe,
    OpenGroup(Grouper),
    CloseGroup(Grouper),
}

impl View for Token {
    type V = SpecToken;

    open spec fn view(&self) -> SpecToken {
        match self {
            Token::String(s) => SpecToken::String(s@),
            Token::Number(n) => SpecToken::Number(n@),
            Token::Identifier(s) => SpecToken::Identifier(s@),
            Token::BinaryOp(b) => SpecToken::BinaryOp(*b),
            Token::UnaryOp(u) => SpecToken::UnaryOp(*u),
            Token::AssignOp(a) => SpecToken::AssignOp(*a),
            Token::Arrow => SpecToken::Arrow,
            Token::Period => SpecToken::Period,
            Token::Spread => SpecToken::Spread,
            Token::MutableHash => SpecToken::MutableHash,
            Token::Hash => SpecToken::Hash,
            Token::Keyword(k) => SpecToken::Keyword(*k),
            Token::Bool(b) => SpecToken::Bool(*b),
            Token::Comma => SpecToken::Comma,
            Token::Colon => SpecToken::Colon,
            Token::Semicolon => SpecToken::Semicolon,
            Token::Pipe => SpecToken::Pipe,
            Token::OpenGroup(g) => SpecToken::OpenGroup(*g),
            Token::CloseGroup(g) => SpecToken::CloseGroup(*g),
        }
    }
}

impl Clone for Token {
    fn clone(&self) -> (r: Self)
        ensures
            r == *self,
    {
        match self {
            Token::String(s) => Token::String(s.clone()),
            Token::Number(n) => Token::Number(n.clone()),
            Token::Identifier(s) => Token::Identifier(s.clone()),
            Token::BinaryOp(b) => Token::BinaryOp(*b),
            Token::UnaryOp(u) => Token::UnaryOp(*u),
            Token::AssignOp(a) => Token::AssignOp(*a),
            Token::Arrow => Token::Arrow,
            Token::Period => Token::Period,
            Token::Spread => Token::Spread,
            Token::MutableHash => Token::MutableHash,
            Token::Hash => Token::Hash,
            Token::Keyword(k) => Token::Keyword(*k),
            Token::Bool(b) => Token::Bool(*b),
            Token::Comma => Token::Comma,
            Token::Colon => Token::Colon,
            Token::Semicolon => Token::Semicolon,
            Token::Pipe => Token::Pipe,
            Token::OpenGroup(g) => Token::OpenGroup(*g),
            Token::CloseGroup(g) => Token::CloseGroup(*g),
        }
    }
}

/// Operator tokens: unary, binary and assignment operators.
pub open spec fn spec_is_op(t: SpecToken) -> bool {
    t is UnaryOp || t is BinaryOp || t is AssignOp
}

impl Token {
    pub fn is_op(&self) -> (b: bool)
        ensures
            b == spec_is_op(self@),
    {
        match self {
            Token::UnaryOp(_) | Token::BinaryOp(_) | Token::AssignOp(_) => true,
            _ => false,
        }
    }

    pub fn ident(&self) -> (b: bool)
        ensures
            b == (self@ is Identifier),
    {
        if let Token::Identifier(_) = self {
            true
        } else {
            false
        }
    }
}

/// A located token as mathematical values.
pub type SpecLocated = (SpecToken, LocView, LocView);

pub open spec fn located_view(t: Located<Token>) -> SpecLocated {
    (t.data@, t.start@, t.end@)
}

impl Clone for Located<Token> {
    fn clone(&self) -> (r: Self)
        ensures
            r == *self,
    {
        Located { data: self.data.clone(), start: self.start.clone(), end: self.end.clone() }
    }
}

/// The token kinds of a sequence of located tokens.
pub open spec fn token_kinds(v: Seq<Located<Token>>) -> Seq<SpecToken> {
    v.map_values(|t: Located<Token>| t.data@)
}

} // verus!
