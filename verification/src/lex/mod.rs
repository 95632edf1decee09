pub mod tokens;

use self::tokens::{keyword_of, located_view, Grouper, Keyword, NumberLit, SpecLocated, SpecNumberLit, SpecToken, Token};
use crate::location::{feed_all, feed_spec, lemma_feed_all_bounds, lemma_feed_all_step, LocView, Located, Location};
use crate::operators::{Assignment, Binary, Unary};
use crate::text::{chars_match, chars_to_string, ident_start_spec, is_digit, is_digit_spec, is_whitespace, is_whitespace_spec, str_chars, valid_ident_char_spec};
use vstd::prelude::*;

verus! {

#[derive(Debug)]
pub enum LexErrorData {
    UnexpectedEOF,
    UnexpectedChar(char),
    InvalidNumber(String),
}

pub enum SpecLexErrorData {
    UnexpectedEOF,
    UnexpectedChar(char),
    InvalidNumber(Seq<char>),
}

impl View for LexErrorData {
    type V = SpecLexErrorData;

    open spec fn view(&self) -> SpecLexErrorData {
        match self {
            LexErrorData::UnexpectedEOF => SpecLexErrorData::UnexpectedEOF,
            LexErrorData::UnexpectedChar(c) => SpecLexErrorData::UnexpectedChar(*c),
            LexErrorData::InvalidNumber(s) => SpecLexErrorData::InvalidNumber(s@),
        }
    }
}

impl LexErrorData {
    pub fn with_loc(self, loc: Location) -> (e: LexError)
        ensures
            e.data == self,
            e.loc@ == loc@,
    {
        LexError { loc, data: self }
    }
}

#[derive(Debug)]
pub struct LexError {
    pub loc: Location,
    pub data: LexErrorData,
}

/// A lexing error as mathematical values: what went wrong and where.
pub type SpecLexError = (SpecLexErrorData, LocView);

/// What the lexer does at one position: produce a token ending at the given
/// index, skip whitespace or a comment ending at the given index, or fail
/// after consuming the characters before the given index.
pub enum Scan {
    Emit(SpecToken, int),
    Skip(int),
    Fail(SpecLexErrorData, int),
}

/// End of the digits (with at most one period) of a number starting before `j`.
pub open spec fn number_end(s: Seq<char>, j: int, period: bool) -> int
    decreases s.len() - j,
{
    if 0 <= j < s.len() && (is_digit_spec(s[j]) || (!period && s[j] == '.')) {
        number_end(s, j + 1, period || s[j] == '.')
    } else {
        j
    }
}

/// End of the identifier characters starting at `j`.
pub open spec fn ident_end(s: Seq<char>, j: int) -> int
    decreases s.len() - j,
{
    if 0 <= j < s.len() && valid_ident_char_spec(s[j]) {
        ident_end(s, j + 1)
    } else {
        j
    }
}

/// End of a line comment whose text starts at `j`: just past the newline, or the end of input.
pub open spec fn line_end(s: Seq<char>, j: int) -> int
    decreases s.len() - j,
{
    if j < 0 || j >= s.len() {
        s.len() as int
    } else if s[j] == '\n' {
        j + 1
    } else {
        line_end(s, j + 1)
    }
}

/// End of a block comment whose text starts at `j`: just past `}@`, or the end of input.
pub open spec fn block_end(s: Seq<char>, j: int) -> int
    decreases s.len() - j,
{
    if j < 0 || j >= s.len() {
        s.len() as int
    } else if s[j] == '}' && j + 1 < s.len() && s[j + 1] == '@' {
        j + 2
    } else {
        block_end(s, j + 1)
    }
}

/// The escape sequences of string literals: `\t`, `\n`, and any other character standing for itself.
pub open spec fn unescape(c: char) -> char {
    if c == 't' {
        '\t'
    } else if c == 'n' {
        '\n'
    } else {
        c
    }
}

/// The contents of a string literal whose body starts at `j`, and the index
/// just past its closing quote; or, when the input ends first, how far the
/// lexer got.
pub open spec fn scan_string(s: Seq<char>, j: int) -> Result<(Seq<char>, int), int>
    decreases s.len() - j,
{
    if j < 0 || j >= s.len() {
        Err(s.len() as int)
    } else if s[j] == '"' {
        Ok((Seq::empty(), j + 1))
    } else if s[j] == '\\' {
        if j + 1 >= s.len() {
            Err(j + 1)
        } else {
            match scan_string(s, j + 2) {
                Ok((rest, e)) => Ok((seq![unescape(s[j + 1])] + rest, e)),
                Err(f) => Err(f),
            }
        }
    } else {
        match scan_string(s, j + 1) {
            Ok((rest, e)) => Ok((seq![s[j]] + rest, e)),
            Err(f) => Err(f),
        }
    }
}

/// The token spelled by a word of identifier characters.
pub open spec fn word_token(w: Seq<char>) -> SpecToken {
    if w == seq!['t', 'r', 'u', 'e'] {
        SpecToken::Bool(true)
    } else if w == seq!['f', 'a', 'l', 's', 'e'] {
        SpecToken::Bool(false)
    } else if w == seq!['N', 'a', 'N'] {
        SpecToken::Number(SpecNumberLit::NaN)
    } else if w == seq!['I', 'n', 'f', 'i', 'n', 'i', 't', 'y'] {
        SpecToken::Number(SpecNumberLit::Infinity)
    } else {
        match keyword_of(w) {
            Some(k) => SpecToken::Keyword(k),
            None => SpecToken::Identifier(w),
        }
    }
}

/// Operators written as one of `+ - * / % < >`, optionally followed by `=`.
pub open spec fn arith_char(c: char) -> bool {
    c == '+' || c == '-' || c == '*' || c == '/' || c == '%' || c == '<' || c == '>'
}

pub open spec fn arith_token(c: char, eq: bool) -> SpecToken {
    if eq {
        if c == '+' {
            SpecToken::AssignOp(Assignment::AssignPlus)
        } else if c == '-' {
            SpecToken::AssignOp(Assignment::AssignMinus)
        } else if c == '*' {
            SpecToken::AssignOp(Assignment::AssignMult)
        } else if c == '/' {
            SpecToken::AssignOp(Assignment::AssignDiv)
        } else if c == '%' {
            SpecToken::AssignOp(Assignment::AssignMod)
        } else if c == '>' {
            SpecToken::BinaryOp(Binary::GreaterEq)
        } else {
            SpecToken::BinaryOp(Binary::LessEq)
        }
    } else {
        if c == '+' {
            SpecToken::BinaryOp(Binary::Plus)
        } else if c == '-' {
            SpecToken::BinaryOp(Binary::Minus)
        } else if c == '*' {
            SpecToken::BinaryOp(Binary::Mult)
        } else if c == '/' {
            SpecToken::BinaryOp(Binary::Div)
        } else if c == '%' {
            SpecToken::BinaryOp(Binary::Mod)
        } else if c == '>' {
            SpecToken::BinaryOp(Binary::GreaterThan)
        } else {
            SpecToken::BinaryOp(Binary::LessThan)
        }
    }
}

/// The binary operator that a character spells on its own, as the guide
/// writes the operators.
pub open spec fn char_operator(c: char) -> Option<Binary> {
    if c == '+' {
        Some(Binary::Plus)
    } else if c == '-' {
        Some(Binary::Minus)
    } else if c == '*' {
        Some(Binary::Mult)
    } else if c == '/' {
        Some(Binary::Div)
    } else if c == '%' {
        Some(Binary::Mod)
    } else if c == '<' {
        Some(Binary::LessThan)
    } else if c == '>' {
        Some(Binary::GreaterThan)
    } else {
        None
    }
}

/// The binary operator that a compound assignment applies before storing.
pub open spec fn compound_operator(a: Assignment) -> Option<Binary> {
    match a {
        Assignment::AssignPlus => Some(Binary::Plus),
        Assignment::AssignMinus => Some(Binary::Minus),
        Assignment::AssignMult => Some(Binary::Mult),
        Assignment::AssignDiv => Some(Binary::Div),
        Assignment::AssignMod => Some(Binary::Mod),
        Assignment::Assign => None,
    }
}

/// An operator character lexes to the operator it spells; followed by `=`,
/// an arithmetic one (`+ - * / %`) lexes to the compound assignment that
/// applies that operator (`x -= 1` subtracts), and `<` or `>` to the
/// comparison that also admits equality.  (A `-` right before `>` is the
/// arrow instead.)
pub proof fn law_operator_tokens(s: Seq<char>, i: int)
    requires
        0 <= i < s.len(),
        char_operator(s[i]) is Some,
    ensures
        ({
            let b = char_operator(s[i])->0;
            let arith = b == Binary::Plus || b == Binary::Minus || b == Binary::Mult || b == Binary::Div || b == Binary::Mod;
            &&& next_is(s, i + 1, '=') && arith ==> (scan(s, i) matches Scan::Emit(SpecToken::AssignOp(a), j) && j == i + 2
                && compound_operator(a) == Some(b))
            &&& next_is(s, i + 1, '=') && b == Binary::LessThan ==> scan(s, i) == Scan::Emit(SpecToken::BinaryOp(Binary::LessEq), i + 2)
            &&& next_is(s, i + 1, '=') && b == Binary::GreaterThan ==> scan(s, i) == Scan::Emit(
                SpecToken::BinaryOp(Binary::GreaterEq), i + 2)
            &&& !next_is(s, i + 1, '=') && !(b == Binary::Minus && next_is(s, i + 1, '>')) ==> scan(s, i) == Scan::Emit(
                SpecToken::BinaryOp(b), i + 1)
        }),
{
}

/// Punctuation lexes to the token it names: brackets, parentheses and
/// braces open and close their own kind of group, `,` `;` `:` are the
/// separators of those names, `#` and `$` open a hash and a mutable hash,
/// and `~` is numeric negation.
pub proof fn law_punctuation_tokens(s: Seq<char>, i: int)
    requires
        0 <= i < s.len(),
    ensures
        s[i] == '[' ==> scan(s, i) == Scan::Emit(SpecToken::OpenGroup(Grouper::Bracket), i + 1),
        s[i] == ']' ==> scan(s, i) == Scan::Emit(SpecToken::CloseGroup(Grouper::Bracket), i + 1),
        s[i] == '(' ==> scan(s, i) == Scan::Emit(SpecToken::OpenGroup(Grouper::Parentheses), i + 1),
        s[i] == ')' ==> scan(s, i) == Scan::Emit(SpecToken::CloseGroup(Grouper::Parentheses), i + 1),
        s[i] == '{' ==> scan(s, i) == Scan::Emit(SpecToken::OpenGroup(Grouper::Brace), i + 1),
        s[i] == '}' ==> scan(s, i) == Scan::Emit(SpecToken::CloseGroup(Grouper::Brace), i + 1),
        s[i] == ',' ==> scan(s, i) == Scan::Emit(SpecToken::Comma, i + 1),
        s[i] == ';' ==> scan(s, i) == Scan::Emit(SpecToken::Semicolon, i + 1),
        s[i] == ':' ==> scan(s, i) == Scan::Emit(SpecToken::Colon, i + 1),
        s[i] == '#' ==> scan(s, i) == Scan::Emit(SpecToken::Hash, i + 1),
        s[i] == '$' ==> scan(s, i) == Scan::Emit(SpecToken::MutableHash, i + 1),
        s[i] == '~' ==> scan(s, i) == Scan::Emit(SpecToken::UnaryOp(Unary::Negation), i + 1),
        s[i] == '!' ==> scan(s, i) == if next_is(s, i + 1, '=') {
            Scan::Emit(SpecToken::BinaryOp(Binary::NotEqual), i + 2)
        } else {
            Scan::Emit(SpecToken::UnaryOp(Unary::LogicalNegation), i + 1)
        },
        s[i] == '=' ==> scan(s, i) == if next_is(s, i + 1, '=') {
            Scan::Emit(SpecToken::BinaryOp(Binary::Equal), i + 2)
        } else {
            Scan::Emit(SpecToken::AssignOp(Assignment::Assign), i + 1)
        },
        s[i] == '|' ==> scan(s, i) == if next_is(s, i + 1, '|') {
            Scan::Emit(SpecToken::BinaryOp(Binary::LogicalOr), i + 2)
        } else {
            Scan::Emit(SpecToken::Pipe, i + 1)
        },
        s[i] == '&' && next_is(s, i + 1, '&') ==> scan(s, i) == Scan::Emit(SpecToken::BinaryOp(Binary::LogicalAnd), i + 2),
        s[i] == '-' && next_is(s, i + 1, '>') ==> scan(s, i) == Scan::Emit(SpecToken::Arrow, i + 2),
        s[i] == '.' && !next_is(s, i + 1, '.') ==> scan(s, i) == Scan::Emit(SpecToken::Period, i + 1),
        s[i] == '.' && next_is(s, i + 1, '.') && next_is(s, i + 2, '.') ==> scan(s, i) == Scan::Emit(SpecToken::Spread, i + 3),
{
}

/// Single-character tokens.
pub open spec fn single_token(c: char) -> Option<SpecToken> {
    if c == '[' {
        Some(SpecToken::OpenGroup(Grouper::Bracket))
    } else if c == ']' {
        Some(SpecToken::CloseGroup(Grouper::Bracket))
    } else if c == '(' {
        Some(SpecToken::OpenGroup(Grouper::Parentheses))
    } else if c == ')' {
        Some(SpecToken::CloseGroup(Grouper::Parentheses))
    } else if c == '{' {
        Some(SpecToken::OpenGroup(Grouper::Brace))
    } else if c == '}' {
        Some(SpecToken::CloseGroup(Grouper::Brace))
    } else if c == ',' {
        Some(SpecToken::Comma)
    } else if c == ';' {
        Some(SpecToken::Semicolon)
    } else if c == ':' {
        Some(SpecToken::Colon)
    } else if c == '$' {
        Some(SpecToken::MutableHash)
    } else if c == '#' {
        Some(SpecToken::Hash)
    } else if c == '~' {
        Some(SpecToken::UnaryOp(Unary::Negation))
    } else {
        None
    }
}

pub open spec fn next_is(s: Seq<char>, j: int, c: char) -> bool {
    0 <= j < s.len() && s[j] == c
}

/// The lexer's step at index `i` of `s`.
pub open spec fn scan(s: Seq<char>, i: int) -> Scan {
    let c = s[i];
    if single_token(c) is Some {
        Scan::Emit(single_token(c)->0, i + 1)
    } else if c == '.' {
        if next_is(s, i + 1, '.') {
            if i + 2 >= s.len() {
                Scan::Fail(SpecLexErrorData::UnexpectedEOF, i + 2)
            } else if s[i + 2] == '.' {
                Scan::Emit(SpecToken::Spread, i + 3)
            } else {
                Scan::Fail(SpecLexErrorData::UnexpectedChar(s[i + 2]), i + 2)
            }
        } else {
            Scan::Emit(SpecToken::Period, i + 1)
        }
    } else if is_digit_spec(c) {
        let e = number_end(s, i + 1, false);
        Scan::Emit(SpecToken::Number(SpecNumberLit::Decimal(s.subrange(i, e))), e)
    } else if c == '|' {
        if next_is(s, i + 1, '|') {
            Scan::Emit(SpecToken::BinaryOp(Binary::LogicalOr), i + 2)
        } else {
            Scan::Emit(SpecToken::Pipe, i + 1)
        }
    } else if c == '&' {
        if i + 1 >= s.len() {
            Scan::Fail(SpecLexErrorData::UnexpectedEOF, i + 1)
        } else if s[i + 1] == '&' {
            Scan::Emit(SpecToken::BinaryOp(Binary::LogicalAnd), i + 2)
        } else {
            Scan::Fail(SpecLexErrorData::UnexpectedChar(s[i + 1]), i + 1)
        }
    } else if arith_char(c) {
        let eq = next_is(s, i + 1, '=');
        let j = if eq { i + 2 } else { i + 1 };
        if !eq && c == '-' && next_is(s, j, '>') {
            Scan::Emit(SpecToken::Arrow, j + 1)
        } else {
            Scan::Emit(arith_token(c, eq), j)
        }
    } else if c == '!' {
        if next_is(s, i + 1, '=') {
            Scan::Emit(SpecToken::BinaryOp(Binary::NotEqual), i + 2)
        } else {
            Scan::Emit(SpecToken::UnaryOp(Unary::LogicalNegation), i + 1)
        }
    } else if c == '=' {
        if next_is(s, i + 1, '=') {
            Scan::Emit(SpecToken::BinaryOp(Binary::Equal), i + 2)
        } else {
            Scan::Emit(SpecToken::AssignOp(Assignment::Assign), i + 1)
        }
    } else if c == '"' {
        match scan_string(s, i + 1) {
            Ok((content, e)) => Scan::Emit(SpecToken::String(content), e),
            Err(f) => Scan::Fail(SpecLexErrorData::UnexpectedEOF, f),
        }
    } else if ident_start_spec(c) {
        let e = ident_end(s, i + 1);
        Scan::Emit(word_token(s.subrange(i, e)), e)
    } else if c == '@' {
        if next_is(s, i + 1, '{') {
            Scan::Skip(block_end(s, i + 2))
        } else {
            Scan::Skip(line_end(s, i + 1))
        }
    } else if is_whitespace_spec(c) {
        Scan::Skip(i + 1)
    } else {
        Scan::Fail(SpecLexErrorData::UnexpectedChar(c), i + 1)
    }
}

pub proof fn lemma_number_end(s: Seq<char>, j: int, period: bool)
    requires
        0 <= j <= s.len(),
    ensures
        j <= number_end(s, j, period) <= s.len(),
    decreases s.len() - j,
{
    if 0 <= j < s.len() && (is_digit_spec(s[j]) || (!period && s[j] == '.')) {
        lemma_number_end(s, j + 1, period || s[j] == '.');
    }
}

pub proof fn lemma_ident_end(s: Seq<char>, j: int)
    requires
        0 <= j <= s.len(),
    ensures
        j <= ident_end(s, j) <= s.len(),
        forall|k: int| j <= k < ident_end(s, j) ==> valid_ident_char_spec(#[trigger] s[k]),
    decreases s.len() - j,
{
    if 0 <= j < s.len() && valid_ident_char_spec(s[j]) {
        lemma_ident_end(s, j + 1);
    }
}

pub proof fn lemma_line_end(s: Seq<char>, j: int)
    requires
        0 <= j <= s.len(),
    ensures
        j <= line_end(s, j) <= s.len(),
    decreases s.len() - j,
{
    if j < s.len() && s[j] != '\n' {
        lemma_line_end(s, j + 1);
    }
}

pub proof fn lemma_block_end(s: Seq<char>, j: int)
    requires
        0 <= j <= s.len(),
    ensures
        j <= block_end(s, j) <= s.len(),
    decreases s.len() - j,
{
    if j < s.len() && !(s[j] == '}' && j + 1 < s.len() && s[j + 1] == '@') {
        lemma_block_end(s, j + 1);
    }
}

pub proof fn lemma_scan_string(s: Seq<char>, j: int)
    requires
        0 <= j <= s.len(),
    ensures
        match scan_string(s, j) {
            Ok((_, e)) => j < e <= s.len(),
            Err(f) => j <= f <= s.len(),
        },
    decreases s.len() - j,
{
    if j < s.len() && s[j] != '"' {
        if s[j] == '\\' {
            if j + 1 < s.len() {
                lemma_scan_string(s, j + 2);
            }
        } else {
            lemma_scan_string(s, j + 1);
        }
    }
}

/// Every step moves forward and stays within the input.
pub proof fn lemma_scan_bounds(s: Seq<char>, i: int)
    requires
        0 <= i < s.len(),
    ensures
        match scan(s, i) {
            Scan::Emit(_, e) => i < e <= s.len(),
            Scan::Skip(e) => i < e <= s.len(),
            Scan::Fail(_, f) => i < f <= s.len(),
        },
{
    lemma_number_end(s, i + 1, false);
    lemma_ident_end(s, i + 1);
    lemma_line_end(s, i + 1);
    if i + 2 <= s.len() {
        lemma_block_end(s, i + 2);
    }
    lemma_scan_string(s, i + 1);
}

/// The tokens of `s` from index `i` on, when lexing starts there at location `l`.
pub open spec fn lex_from(s: Seq<char>, i: int, l: LocView) -> Result<Seq<SpecLocated>, SpecLexError>
    decreases s.len() - i,
{
    if i < 0 || i >= s.len() {
        Ok(Seq::empty())
    } else {
        proof {
            lemma_scan_bounds(s, i);
        }
        match scan(s, i) {
            Scan::Emit(t, e) => {
                let l2 = feed_all(l, s.subrange(i, e));
                match lex_from(s, e, l2) {
                    Ok(rest) => Ok(seq![(t, l, l2)] + rest),
                    Err(err) => Err(err),
                }
            },
            Scan::Skip(e) => lex_from(s, e, feed_all(l, s.subrange(i, e))),
            Scan::Fail(d, f) => Err((d, feed_all(l, s.subrange(i, f)))),
        }
    }
}

/// The tokens of a whole source text.
pub open spec fn spec_lex(s: Seq<char>) -> Result<Seq<SpecLocated>, SpecLexError> {
    lex_from(s, 0, (1nat, 0nat))
}

pub open spec fn located_tokens(v: Seq<Located<Token>>) -> Seq<SpecLocated> {
    v.map_values(|t: Located<Token>| located_view(t))
}

pub open spec fn lex_error_view(e: LexError) -> SpecLexError {
    (e.data@, e.loc@)
}


/// `loc` is the start location `l0` fed with the characters from `i0` up to `pos`.
pub open spec fn fed(s: Seq<char>, i0: int, pos: int, l0: LocView, loc: LocView) -> bool {
    &&& 0 <= i0 <= pos <= s.len()
    &&& loc == feed_all(l0, s.subrange(i0, pos))
}

/// Feeding the rest of the input from `i0` cannot overflow a location.
pub open spec fn room(s: Seq<char>, i0: int, l0: LocView) -> bool {
    &&& l0.0 + (s.len() - i0) < usize::MAX
    &&& l0.1 + (s.len() - i0) < usize::MAX
}

/// Consumes the character at `pos`, feeding it to `loc`.
fn advance(s: &Vec<char>, pos: &mut usize, loc: &mut Location, Ghost(i0): Ghost<int>, Ghost(l0): Ghost<LocView>)
    requires
        fed(s@, i0, *old(pos) as int, l0, old(loc)@),
        room(s@, i0, l0),
        *old(pos) < s@.len(),
    ensures
        *final(pos) == *old(pos) + 1,
        fed(s@, i0, *final(pos) as int, l0, final(loc)@),
{
    proof {
        lemma_feed_all_bounds(l0, s@.subrange(i0, *pos as int));
        lemma_feed_all_step(l0, s@, i0, *pos as int);
    }
    let n = s.len();
    let c = s[*pos];
    loc.feed(c);
    *pos = *pos + 1;
}

/// Consumes the character at `pos` when it is `c`.
fn nchar_if(s: &Vec<char>, pos: &mut usize, c: char, loc: &mut Location, Ghost(i0): Ghost<int>, Ghost(l0): Ghost<LocView>) -> (r: Option<char>)
    requires
        fed(s@, i0, *old(pos) as int, l0, old(loc)@),
        room(s@, i0, l0),
    ensures
        next_is(s@, *old(pos) as int, c) ==> r == Some(c) && *final(pos) == *old(pos) + 1,
        !next_is(s@, *old(pos) as int, c) ==> r is None && *final(pos) == *old(pos),
        fed(s@, i0, *final(pos) as int, l0, final(loc)@),
{
    if *pos < s.len() && s[*pos] == c {
        advance(s, pos, loc, Ghost(i0), Ghost(l0));
        Some(c)
    } else {
        None
    }
}

/// Consumes the character at `pos`, failing unless it is `c`.
fn next_guard(s: &Vec<char>, pos: &mut usize, c: char, loc: &mut Location, Ghost(i0): Ghost<int>, Ghost(l0): Ghost<LocView>) -> (r: Result<(), LexError>)
    requires
        fed(s@, i0, *old(pos) as int, l0, old(loc)@),
        room(s@, i0, l0),
    ensures
        next_is(s@, *old(pos) as int, c) ==> r is Ok && *final(pos) == *old(pos) + 1 && fed(s@, i0, *final(pos) as int, l0, final(loc)@),
        *old(pos) >= s@.len() ==> (r matches Err(e) && lex_error_view(e) == (SpecLexErrorData::UnexpectedEOF, old(loc)@)),
        *old(pos) < s@.len() && s@[*old(pos) as int] != c ==> (r matches Err(e) && lex_error_view(e) == (SpecLexErrorData::UnexpectedChar(s@[*old(pos) as int]), old(loc)@)),
{
    if *pos >= s.len() {
        return Err(LexErrorData::UnexpectedEOF.with_loc(loc.clone()));
    }
    let ch = s[*pos];
    if ch == c {
        advance(s, pos, loc, Ghost(i0), Ghost(l0));
        Ok(())
    } else {
        Err(LexErrorData::UnexpectedChar(ch).with_loc(loc.clone()))
    }
}

pub fn valid_ident_char(c: char) -> (b: bool)
    ensures
        b == valid_ident_char_spec(c),
{
    ('a' <= c && c <= 'z') || ('A' <= c && c <= 'Z') || is_digit(c) || c == '_'
}

/// The token for one of `+ - * / % < >`, optionally followed by `=`.
fn arith_op(c: char, eq: bool) -> (t: Token)
    requires
        arith_char(c),
    ensures
        t@ == arith_token(c, eq),
{
    if eq {
        if c == '+' {
            Token::AssignOp(Assignment::AssignPlus)
        } else if c == '-' {
            Token::AssignOp(Assignment::AssignMinus)
        } else if c == '*' {
            Token::AssignOp(Assignment::AssignMult)
        } else if c == '/' {
            Token::AssignOp(Assignment::AssignDiv)
        } else if c == '%' {
            Token::AssignOp(Assignment::AssignMod)
        } else if c == '>' {
            Token::BinaryOp(Binary::GreaterEq)
        } else {
            Token::BinaryOp(Binary::LessEq)
        }
    } else {
        if c == '+' {
            Token::BinaryOp(Binary::Plus)
        } else if c == '-' {
            Token::BinaryOp(Binary::Minus)
        } else if c == '*' {
            Token::BinaryOp(Binary::Mult)
        } else if c == '/' {
            Token::BinaryOp(Binary::Div)
        } else if c == '%' {
            Token::BinaryOp(Binary::Mod)
        } else if c == '>' {
            Token::BinaryOp(Binary::GreaterThan)
        } else {
            Token::BinaryOp(Binary::LessThan)
        }
    }
}

fn single(c: char) -> (t: Option<Token>)
    ensures
        match single_token(c) {
            Some(st) => t matches Some(tok) && tok@ == st,
            None => t is None,
        },
{
    if c == '[' {
        Some(Token::OpenGroup(Grouper::Bracket))
    } else if c == ']' {
        Some(Token::CloseGroup(Grouper::Bracket))
    } else if c == '(' {
        Some(Token::OpenGroup(Grouper::Parentheses))
    } else if c == ')' {
        Some(Token::CloseGroup(Grouper::Parentheses))
    } else if c == '{' {
        Some(Token::OpenGroup(Grouper::Brace))
    } else if c == '}' {
        Some(Token::CloseGroup(Grouper::Brace))
    } else if c == ',' {
        Some(Token::Comma)
    } else if c == ';' {
        Some(Token::Semicolon)
    } else if c == ':' {
        Some(Token::Colon)
    } else if c == '$' {
        Some(Token::MutableHash)
    } else if c == '#' {
        Some(Token::Hash)
    } else if c == '~' {
        Some(Token::UnaryOp(Unary::Negation))
    } else {
        None
    }
}

/// The token spelled by a word of identifier characters.
fn word(w: Vec<char>) -> (t: Token)
    ensures
        t@ == word_token(w@),
{
    let tru = ['t', 'r', 'u', 'e'];
    let fal = ['f', 'a', 'l', 's', 'e'];
    let nan = ['N', 'a', 'N'];
    let inf = ['I', 'n', 'f', 'i', 'n', 'i', 't', 'y'];
    assert(tru@ =~= seq!['t', 'r', 'u', 'e']);
    assert(fal@ =~= seq!['f', 'a', 'l', 's', 'e']);
    assert(nan@ =~= seq!['N', 'a', 'N']);
    assert(inf@ =~= seq!['I', 'n', 'f', 'i', 'n', 'i', 't', 'y']);
    if chars_match(w.as_slice(), &tru) {
        Token::Bool(true)
    } else if chars_match(w.as_slice(), &fal) {
        Token::Bool(false)
    } else if chars_match(w.as_slice(), &nan) {
        Token::Number(NumberLit::NaN)
    } else if chars_match(w.as_slice(), &inf) {
        Token::Number(NumberLit::Infinity)
    } else {
        match Keyword::from_chars(w.as_slice()) {
            Some(k) => Token::Keyword(k),
            None => Token::Identifier(chars_to_string(&w)),
        }
    }
}

pub open spec fn prepend_string(p: Seq<char>, r: Result<(Seq<char>, int), int>) -> Result<(Seq<char>, int), int> {
    match r {
        Ok((x, e)) => Ok((p + x, e)),
        Err(f) => Err(f),
    }
}

/// Lexes one token, comment or blank starting at `pos`.
fn lex_token(s: &Vec<char>, pos: &mut usize, loc: &mut Location) -> (r: Result<Option<Token>, LexError>)
    requires
        *old(pos) < s@.len(),
        room(s@, *old(pos) as int, old(loc)@),
    ensures
        match scan(s@, *old(pos) as int) {
            Scan::Emit(t, e) => r matches Ok(Some(tok)) && tok@ == t && *final(pos) == e
                && final(loc)@ == feed_all(old(loc)@, s@.subrange(*old(pos) as int, e)),
            Scan::Skip(e) => r matches Ok(None) && *final(pos) == e
                && final(loc)@ == feed_all(old(loc)@, s@.subrange(*old(pos) as int, e)),
            Scan::Fail(d, f) => r matches Err(err) && lex_error_view(err) == (d, feed_all(old(loc)@, s@.subrange(*old(pos) as int, f))),
        },
{
    let ghost i0 = *pos as int;
    let ghost l0 = loc@;
    let ghost ss = s@;
    assert(s@.subrange(i0, i0) =~= Seq::<char>::empty());
    let c = s[*pos];
    advance(s, pos, loc, Ghost(i0), Ghost(l0));
    proof {
        lemma_scan_bounds(s@, i0);
    }
    if let Some(t) = single(c) {
        return Ok(Some(t));
    }
    if c == '.' {
        if nchar_if(s, pos, '.', loc, Ghost(i0), Ghost(l0)).is_some() {
            match next_guard(s, pos, '.', loc, Ghost(i0), Ghost(l0)) {
                Ok(()) => return Ok(Some(Token::Spread)),
                Err(e) => return Err(e),
            }
        } else {
            return Ok(Some(Token::Period));
        }
    }
    if is_digit(c) {
        let mut number: Vec<char> = vec![c];
        let mut period = false;
        while *pos < s.len() && (is_digit(s[*pos]) || (!period && s[*pos] == '.'))
            invariant
                i0 < *pos <= s@.len(),
                s@ == ss,
                i0 == *old(pos) as int,
                l0 == old(loc)@,
                fed(s@, i0, *pos as int, l0, loc@),
                room(s@, i0, l0),
                number@ == s@.subrange(i0, *pos as int),
                number_end(s@, i0 + 1, false) == number_end(s@, *pos as int, period),
            decreases s@.len() - *pos,
        {
            let d = s[*pos];
            period = period || d == '.';
            number.push(d);
            advance(s, pos, loc, Ghost(i0), Ghost(l0));
            assert(number@ =~= s@.subrange(i0, *pos as int));
        }
        return Ok(Some(Token::Number(NumberLit::Decimal(chars_to_string(&number)))));
    }
    if c == '|' {
        if nchar_if(s, pos, '|', loc, Ghost(i0), Ghost(l0)).is_some() {
            return Ok(Some(Token::BinaryOp(Binary::LogicalOr)));
        } else {
            return Ok(Some(Token::Pipe));
        }
    }
    if c == '&' {
        match next_guard(s, pos, '&', loc, Ghost(i0), Ghost(l0)) {
            Ok(()) => return Ok(Some(Token::BinaryOp(Binary::LogicalAnd))),
            Err(e) => return Err(e),
        }
    }
    if c == '+' || c == '-' || c == '*' || c == '/' || c == '<' || c == '>' || c == '%' {
        let eq = nchar_if(s, pos, '=', loc, Ghost(i0), Ghost(l0)).is_some();
        if !eq && c == '-' && *pos < s.len() && s[*pos] == '>' {
            advance(s, pos, loc, Ghost(i0), Ghost(l0));
            return Ok(Some(Token::Arrow));
        }
        return Ok(Some(arith_op(c, eq)));
    }
    if c == '!' {
        if nchar_if(s, pos, '=', loc, Ghost(i0), Ghost(l0)).is_some() {
            return Ok(Some(Token::BinaryOp(Binary::NotEqual)));
        } else {
            return Ok(Some(Token::UnaryOp(Unary::LogicalNegation)));
        }
    }
    if c == '=' {
        if nchar_if(s, pos, '=', loc, Ghost(i0), Ghost(l0)).is_some() {
            return Ok(Some(Token::BinaryOp(Binary::Equal)));
        } else {
            return Ok(Some(Token::AssignOp(Assignment::Assign)));
        }
    }
    if c == '"' {
        let mut content: Vec<char> = Vec::new();
        loop
            invariant
                i0 < *pos <= s@.len(),
                s@ == ss,
                i0 == *old(pos) as int,
                l0 == old(loc)@,
                s@[i0] == '"',
                fed(s@, i0, *pos as int, l0, loc@),
                room(s@, i0, l0),
                scan_string(s@, i0 + 1) == prepend_string(content@, scan_string(s@, *pos as int)),
            decreases s@.len() - *pos,
        {
            if *pos >= s.len() {
                return Err(LexErrorData::UnexpectedEOF.with_loc(loc.clone()));
            }
            let ghost j = *pos as int;
            let ch = s[*pos];
            advance(s, pos, loc, Ghost(i0), Ghost(l0));
            if ch == '"' {
                assert(content@ + Seq::<char>::empty() =~= content@);
                return Ok(Some(Token::String(chars_to_string(&content))));
            }
            if ch == '\\' {
                if *pos >= s.len() {
                    return Err(LexErrorData::UnexpectedEOF.with_loc(loc.clone()));
                }
                let esc = s[*pos];
                advance(s, pos, loc, Ghost(i0), Ghost(l0));
                let u = if esc == 't' {
                    '\t'
                } else if esc == 'n' {
                    '\n'
                } else {
                    esc
                };
                proof {
                    match scan_string(s@, j + 2) {
                        Ok((rest, e)) => {
                            assert(content@.push(u) + rest =~= content@ + (seq![u] + rest));
                        },
                        Err(f) => {},
                    }
                }
                content.push(u);
            } else {
                proof {
                    match scan_string(s@, j + 1) {
                        Ok((rest, e)) => {
                            assert(content@.push(ch) + rest =~= content@ + (seq![ch] + rest));
                        },
                        Err(f) => {},
                    }
                }
                content.push(ch);
            }
        }
    }
    if ('a' <= c && c <= 'z') || ('A' <= c && c <= 'Z') || c == '_' {
        let mut w: Vec<char> = vec![c];
        while *pos < s.len() && valid_ident_char(s[*pos])
            invariant
                i0 < *pos <= s@.len(),
                s@ == ss,
                i0 == *old(pos) as int,
                l0 == old(loc)@,
                fed(s@, i0, *pos as int, l0, loc@),
                room(s@, i0, l0),
                w@ == s@.subrange(i0, *pos as int),
                ident_end(s@, i0 + 1) == ident_end(s@, *pos as int),
            decreases s@.len() - *pos,
        {
            w.push(s[*pos]);
            advance(s, pos, loc, Ghost(i0), Ghost(l0));
            assert(w@ =~= s@.subrange(i0, *pos as int));
        }
        return Ok(Some(word(w)));
    }
    if c == '@' {
        if nchar_if(s, pos, '{', loc, Ghost(i0), Ghost(l0)).is_some() {
            while *pos < s.len()
                invariant
                    i0 + 2 <= *pos <= s@.len(),
                    s@ == ss,
                    i0 == *old(pos) as int,
                    l0 == old(loc)@,
                i0 == *old(pos) as int,
                l0 == old(loc)@,
                    s@[i0] == '@',
                    next_is(s@, i0 + 1, '{'),
                    fed(s@, i0, *pos as int, l0, loc@),
                    room(s@, i0, l0),
                    block_end(s@, i0 + 2) == block_end(s@, *pos as int),
                decreases s@.len() - *pos,
            {
                let ch = s[*pos];
                advance(s, pos, loc, Ghost(i0), Ghost(l0));
                if ch == '}' && nchar_if(s, pos, '@', loc, Ghost(i0), Ghost(l0)).is_some() {
                    return Ok(None);
                }
            }
            return Ok(None);
        } else {
            while *pos < s.len()
                invariant
                    i0 + 1 <= *pos <= s@.len(),
                    s@ == ss,
                    i0 == *old(pos) as int,
                    l0 == old(loc)@,
                i0 == *old(pos) as int,
                l0 == old(loc)@,
                    s@[i0] == '@',
                    !next_is(s@, i0 + 1, '{'),
                    fed(s@, i0, *pos as int, l0, loc@),
                    room(s@, i0, l0),
                    line_end(s@, i0 + 1) == line_end(s@, *pos as int),
                decreases s@.len() - *pos,
            {
                let ch = s[*pos];
                advance(s, pos, loc, Ghost(i0), Ghost(l0));
                if ch == '\n' {
                    return Ok(None);
                }
            }
            return Ok(None);
        }
    }
    if is_whitespace(c) {
        return Ok(None);
    }
    Err(LexErrorData::UnexpectedChar(c).with_loc(loc.clone()))
}

pub open spec fn prepend_tokens(p: Seq<SpecLocated>, r: Result<Seq<SpecLocated>, SpecLexError>) -> Result<Seq<SpecLocated>, SpecLexError> {
    match r {
        Ok(x) => Ok(p + x),
        Err(e) => Err(e),
    }
}

/// Splits a sequence of characters into tokens.
pub fn lex_chars(s: &Vec<char>) -> (r: Result<Vec<Located<Token>>, LexError>)
    requires
        s@.len() + 1 < usize::MAX,
    ensures
        match r {
            Ok(v) => spec_lex(s@) == Ok::<Seq<SpecLocated>, SpecLexError>(located_tokens(v@)),
            Err(e) => spec_lex(s@) == Err::<Seq<SpecLocated>, SpecLexError>(lex_error_view(e)),
        },
{
    let mut pos: usize = 0;
    let mut loc = Location::new();
    let mut tokens: Vec<Located<Token>> = Vec::new();
    assert(s@.subrange(0, 0) =~= Seq::<char>::empty());
    assert(located_tokens(tokens@) =~= Seq::<SpecLocated>::empty());
    while pos < s.len()
        invariant
            pos <= s@.len(),
            s@.len() + 1 < usize::MAX,
            loc@ == feed_all((1nat, 0nat), s@.subrange(0, pos as int)),
            spec_lex(s@) == prepend_tokens(located_tokens(tokens@), lex_from(s@, pos as int, loc@)),
        decreases s@.len() - pos,
    {
        proof {
            lemma_feed_all_bounds((1nat, 0nat), s@.subrange(0, pos as int));
            lemma_scan_bounds(s@, pos as int);
        }
        let ghost p0 = pos as int;
        let ghost l0 = loc@;
        let start = loc.clone();
        let step = lex_token(s, &mut pos, &mut loc);
        if step.is_ok() {
            proof {
                crate::location::lemma_feed_all_concat((1nat, 0nat), s@.subrange(0, p0), s@.subrange(p0, pos as int));
                assert(s@.subrange(0, p0) + s@.subrange(p0, pos as int) =~= s@.subrange(0, pos as int));
            }
        }
        match step {
            Ok(Some(t)) => {
                let ghost before = tokens@;
                let item = Located::with_loc(t, start, loc.clone());
                tokens.push(item);
                proof {
                    assert(located_tokens(tokens@) =~= located_tokens(before).push(located_view(item)));
                    match lex_from(s@, pos as int, loc@) {
                        Ok(rest) => {
                            assert(located_tokens(before) + (seq![located_view(item)] + rest) =~= located_tokens(tokens@) + rest);
                        },
                        Err(_) => {},
                    }
                }
            },
            Ok(None) => {},
            Err(e) => {
                return Err(e);
            },
        }
    }
    assert(located_tokens(tokens@) + Seq::<SpecLocated>::empty() =~= located_tokens(tokens@));
    Ok(tokens)
}

/// Splits a source text into tokens.
pub fn lex(s: &str) -> (r: Result<Vec<Located<Token>>, LexError>)
    requires
        s@.len() + 1 < usize::MAX,
    ensures
        match r {
            Ok(v) => spec_lex(s@) == Ok::<Seq<SpecLocated>, SpecLexError>(located_tokens(v@)),
            Err(e) => spec_lex(s@) == Err::<Seq<SpecLocated>, SpecLexError>(lex_error_view(e)),
        },
{
    let chars = str_chars(s);
    lex_chars(&chars)
}

} // verus!
