//! Expressions made of operators, one-token operands and parentheses: what
//! the parser makes of them.  A parenthesized group is one operand, the
//! expression its inside stands for; around it, operator precedence
//! decides as for any operand.
use crate::ast::node::Expression;
use crate::ast::parsing::expression::{atom_item, is_atom_token, is_op_token, op_item_of};
use crate::ast::parsing::opexpr::{pushed_ok, resolve_spec, OpExpr};
use crate::ast::parsing::util::{lemma_level_scan_bounds, level_scan, zero_level_read, zero_level_spec, Level, Stop};
use crate::ast::parsing::ParseError;
use crate::lex::tokens::{token_kinds, Grouper, SpecToken, Token};
use crate::location::Located;
use vstd::prelude::*;

verus! {

/// Whether a token ends an operand: a one-token operand or a closing
/// parenthesis.
pub open spec fn ends_operand(t: Token) -> bool {
    is_atom_token(t) || t == Token::CloseGroup(Grouper::Parentheses)
}

/// Whether every token is an operator, a one-token operand or a
/// parenthesis, and no opening parenthesis directly follows the end of an
/// operand (which would make a call).
pub open spec fn paren_expression(ts: Seq<Located<Token>>) -> bool {
    forall|k: int| 0 <= k < ts.len() ==> {
        let t = #[trigger] ts[k].data;
        &&& is_op_token(t) || is_atom_token(t) || t == Token::OpenGroup(Grouper::Parentheses)
            || t == Token::CloseGroup(Grouper::Parentheses)
        &&& t == Token::OpenGroup(Grouper::Parentheses) && k > 0 ==> !ends_operand(ts[k - 1].data)
    }
}

/// Whether `items` stand for the tokens `ts`, read from the front: an
/// operator token for its operator, a one-token operand for its operand,
/// and a parenthesized group for the expression its inside stands for.
pub open spec fn paren_items(ts: Seq<Located<Token>>, items: Seq<OpExpr>, strings: Seq<Seq<char>>) -> bool
    decreases ts.len(), 1nat,
{
    if ts.len() == 0 {
        items.len() == 0
    } else if items.len() == 0 {
        false
    } else if is_op_token(ts[0].data) {
        op_item_of(items[0], ts[0].data) && paren_items(ts.skip(1), items.skip(1), strings)
    } else if is_atom_token(ts[0].data) {
        &&& items[0] matches OpExpr::Expr(e, loc) && loc == ts[0].start && atom_item(ts[0], e, strings)
        &&& paren_items(ts.skip(1), items.skip(1), strings)
    } else if ts[0].data == Token::OpenGroup(Grouper::Parentheses) {
        let rest = ts.skip(1);
        let stop = Stop::Close(Grouper::Parentheses);
        proof {
            lemma_level_scan_bounds(token_kinds(rest), stop, 0, Seq::empty());
        }
        match zero_level_spec(rest, stop) {
            Ok(Ok((inner, _))) => {
                &&& items[0] matches OpExpr::Expr(e, loc) && loc == ts[0].start && paren_expr(inner, e, strings)
                &&& paren_items(ts.skip(1 + zero_level_read(rest, stop)), items.skip(1), strings)
            },
            _ => false,
        }
    } else {
        false
    }
}

/// Whether `e` is the expression that the tokens `ts` stand for: the
/// precedence resolution of their items, each where it may follow the ones
/// before it.
pub open spec fn paren_expr(ts: Seq<Located<Token>>, e: Expression, strings: Seq<Seq<char>>) -> bool
    decreases ts.len(), 2nat,
{
    exists|items: Seq<OpExpr>| paren_items(ts, items, strings) && pushed_ok(items)
        && resolve_spec(items) == Ok::<Expression, ParseError>(e)
}

/// Scanning two token kind sequences that agree on `a`'s indices finds the
/// same stop token at an index of `a`.
proof fn lemma_scan_agree(a: Seq<SpecToken>, b: Seq<SpecToken>, stop: Stop, i: int, st: Seq<Grouper>, k: int)
    requires
        0 <= i,
        0 <= k < a.len(),
        a.len() <= b.len(),
        forall|j: int| 0 <= j < a.len() ==> #[trigger] b[j] == a[j],
    ensures
        (level_scan(a, stop, i, st) == Level::Found(k)) == (level_scan(b, stop, i, st) == Level::Found(k)),
    decreases a.len() - i,
{
    if i >= a.len() {
        lemma_level_scan_bounds(b, stop, i, st);
    } else {
        assert(b[i] == a[i]);
        match a[i] {
            SpecToken::OpenGroup(g) => {
                lemma_scan_agree(a, b, stop, i + 1, st.push(g), k);
            },
            SpecToken::CloseGroup(g) => {
                if st.len() > 0 && st.last() == g {
                    lemma_scan_agree(a, b, stop, i + 1, st.drop_last(), k);
                }
            },
            _ => {
                lemma_scan_agree(a, b, stop, i + 1, st, k);
            },
        }
    }
}

/// A scan stops at a stop token.
proof fn lemma_scan_found_stops(ts: Seq<SpecToken>, stop: Stop, i: int, st: Seq<Grouper>, k: int)
    requires
        0 <= i,
        level_scan(ts, stop, i, st) == Level::Found(k),
    ensures
        crate::ast::parsing::util::stops(stop, ts[k]),
    decreases ts.len() - i,
{
    if i < ts.len() && !(st.len() == 0 && crate::ast::parsing::util::stops(stop, ts[i])) {
        match ts[i] {
            SpecToken::OpenGroup(g) => lemma_scan_found_stops(ts, stop, i + 1, st.push(g), k),
            SpecToken::CloseGroup(g) => {
                if st.len() > 0 && st.last() == g {
                    lemma_scan_found_stops(ts, stop, i + 1, st.drop_last(), k);
                }
            },
            _ => lemma_scan_found_stops(ts, stop, i + 1, st, k),
        }
    }
}

/// Tokens that agree on `a`'s indices have the same group ending at an
/// index of `a`.
proof fn lemma_found_agree(a: Seq<Located<Token>>, b: Seq<Located<Token>>, stop: Stop, k: int)
    requires
        0 <= k < a.len(),
        a.len() <= b.len(),
        forall|j: int| 0 <= j < a.len() ==> #[trigger] b[j] == a[j],
    ensures
        (level_scan(token_kinds(a), stop, 0, Seq::empty()) == Level::Found(k))
            == (level_scan(token_kinds(b), stop, 0, Seq::empty()) == Level::Found(k)),
{
    let ka = token_kinds(a);
    let kb = token_kinds(b);
    assert forall|j: int| 0 <= j < ka.len() implies #[trigger] kb[j] == ka[j] by {
        assert(b[j] == a[j]);
    }
    lemma_scan_agree(ka, kb, stop, 0, Seq::empty(), k);
}

/// The group that a closing parenthesis ends, as `paren_items` reads it.
proof fn lemma_group_found(ts: Seq<Located<Token>>) -> (k: int)
    requires
        ts.len() > 0,
        zero_level_spec(ts.skip(1), Stop::Close(Grouper::Parentheses)) is Ok,
        zero_level_spec(ts.skip(1), Stop::Close(Grouper::Parentheses))->Ok_0 is Ok,
    ensures
        0 <= k < ts.len() - 1,
        level_scan(token_kinds(ts.skip(1)), Stop::Close(Grouper::Parentheses), 0, Seq::empty()) == Level::Found(k),
        zero_level_read(ts.skip(1), Stop::Close(Grouper::Parentheses)) == k + 1,
        ts[k + 1].data == Token::CloseGroup(Grouper::Parentheses),
{
    let rest = ts.skip(1);
    let stop = Stop::Close(Grouper::Parentheses);
    lemma_level_scan_bounds(token_kinds(rest), stop, 0, Seq::empty());
    let lv = level_scan(token_kinds(rest), stop, 0, Seq::empty());
    match lv {
        Level::Found(k) => {
            lemma_scan_found_stops(token_kinds(rest), stop, 0, Seq::empty(), k);
            assert(token_kinds(rest)[k] == rest[k].data@);
            assert(rest[k] == ts[k + 1]);
            k
        },
        _ => {
            assert(false);
            0
        },
    }
}

/// The items of two token sequences together stand for the sequences
/// together.
pub proof fn lemma_paren_append(ts1: Seq<Located<Token>>, it1: Seq<OpExpr>, ts2: Seq<Located<Token>>, it2: Seq<OpExpr>, strings: Seq<Seq<char>>)
    requires
        paren_items(ts1, it1, strings),
        paren_items(ts2, it2, strings),
    ensures
        paren_items(ts1 + ts2, it1 + it2, strings),
    decreases ts1.len(),
{
    if ts1.len() == 0 {
        assert(ts1 + ts2 =~= ts2);
        assert(it1 + it2 =~= it2);
    } else {
        let ts = ts1 + ts2;
        let it = it1 + it2;
        assert(ts[0] == ts1[0]);
        assert(it[0] == it1[0]);
        if is_op_token(ts1[0].data) || is_atom_token(ts1[0].data) {
            lemma_paren_append(ts1.skip(1), it1.skip(1), ts2, it2, strings);
            assert(ts.skip(1) =~= ts1.skip(1) + ts2);
            assert(it.skip(1) =~= it1.skip(1) + it2);
        } else {
            let stop = Stop::Close(Grouper::Parentheses);
            let k = lemma_group_found(ts1);
            let r1 = ts1.skip(1);
            let r = ts.skip(1);
            assert(r =~= r1 + ts2);
            lemma_found_agree(r1, r, stop, k);
            assert(r.take(k) =~= r1.take(k));
            assert(r[k] == r1[k]);
            lemma_level_scan_bounds(token_kinds(r), stop, 0, Seq::empty());
            lemma_paren_append(ts1.skip(k + 2), it1.skip(1), ts2, it2, strings);
            assert(ts.skip(k + 2) =~= ts1.skip(k + 2) + ts2);
            assert(it.skip(1) =~= it1.skip(1) + it2);
        }
    }
}

/// Whether `s2` extends the string table `s1`.
pub open spec fn extends_strings(s1: Seq<Seq<char>>, s2: Seq<Seq<char>>) -> bool {
    &&& s1.len() <= s2.len()
    &&& forall|i: int| 0 <= i < s1.len() ==> #[trigger] s2[i] == s1[i]
}

/// What items stand for stays so when the string table grows.
pub proof fn lemma_paren_items_grow(ts: Seq<Located<Token>>, items: Seq<OpExpr>, s1: Seq<Seq<char>>, s2: Seq<Seq<char>>)
    requires
        paren_items(ts, items, s1),
        extends_strings(s1, s2),
    ensures
        paren_items(ts, items, s2),
    decreases ts.len(), 1nat,
{
    if ts.len() > 0 {
        if is_op_token(ts[0].data) || is_atom_token(ts[0].data) {
            lemma_paren_items_grow(ts.skip(1), items.skip(1), s1, s2);
        } else {
            let stop = Stop::Close(Grouper::Parentheses);
            let k = lemma_group_found(ts);
            let inner = ts.skip(1).take(k);
            if let OpExpr::Expr(e, _) = items[0] {
                lemma_paren_expr_grow(inner, e, s1, s2);
            }
            lemma_paren_items_grow(ts.skip(k + 2), items.skip(1), s1, s2);
        }
    }
}

/// What an expression stands for stays so when the string table grows.
pub proof fn lemma_paren_expr_grow(ts: Seq<Located<Token>>, e: Expression, s1: Seq<Seq<char>>, s2: Seq<Seq<char>>)
    requires
        paren_expr(ts, e, s1),
        extends_strings(s1, s2),
    ensures
        paren_expr(ts, e, s2),
    decreases ts.len(), 2nat,
{
    let items = choose|items: Seq<OpExpr>| paren_items(ts, items, s1) && pushed_ok(items)
        && resolve_spec(items) == Ok::<Expression, ParseError>(e);
    lemma_paren_items_grow(ts, items, s1, s2);
}

/// A stretch of such an expression that does not start right after an
/// operand is such an expression too.
pub proof fn lemma_paren_subrange(ts: Seq<Located<Token>>, a: int, b: int)
    requires
        paren_expression(ts),
        0 <= a <= b <= ts.len(),
        a > 0 ==> !ends_operand(ts[a - 1].data),
    ensures
        paren_expression(ts.subrange(a, b)),
{
    let sub = ts.subrange(a, b);
    assert forall|k: int| 0 <= k < sub.len() implies {
        let t = #[trigger] sub[k].data;
        &&& is_op_token(t) || is_atom_token(t) || t == Token::OpenGroup(Grouper::Parentheses)
            || t == Token::CloseGroup(Grouper::Parentheses)
        &&& t == Token::OpenGroup(Grouper::Parentheses) && k > 0 ==> !ends_operand(sub[k - 1].data)
    } by {
        assert(sub[k] == ts[a + k]);
        let t0 = ts[a + k].data;
        if k > 0 {
            assert(sub[k - 1] == ts[a + k - 1]);
        }
    }
}

/// A parenthesized group, as the parser reads it, stands for the
/// expression of its inside.
pub proof fn lemma_paren_group(ts: Seq<Located<Token>>, c: int, e: Expression, strings: Seq<Seq<char>>)
    requires
        0 <= c < ts.len(),
        ts[c].data == Token::OpenGroup(Grouper::Parentheses),
        zero_level_spec(ts.skip(c + 1), Stop::Close(Grouper::Parentheses)) matches Ok(Ok((inner, _)))
            && paren_expr(inner, e, strings),
    ensures
        1 <= zero_level_read(ts.skip(c + 1), Stop::Close(Grouper::Parentheses)),
        c + 1 + zero_level_read(ts.skip(c + 1), Stop::Close(Grouper::Parentheses)) <= ts.len(),
        paren_items(ts.subrange(c, c + 1 + zero_level_read(ts.skip(c + 1), Stop::Close(Grouper::Parentheses))),
            seq![OpExpr::Expr(e, ts[c].start)], strings),
        ts[c + zero_level_read(ts.skip(c + 1), Stop::Close(Grouper::Parentheses))].data == Token::CloseGroup(Grouper::Parentheses),
{
    let stop = Stop::Close(Grouper::Parentheses);
    let big = ts.skip(c);
    assert(big.skip(1) =~= ts.skip(c + 1));
    let k = lemma_group_found(big);
    let g = ts.subrange(c, c + k + 2);
    assert(g.skip(1) =~= ts.subrange(c + 1, c + k + 2));
    lemma_found_agree(g.skip(1), ts.skip(c + 1), stop, k);
    lemma_level_scan_bounds(token_kinds(g.skip(1)), stop, 0, Seq::empty());
    assert(g.skip(1).take(k) =~= ts.skip(c + 1).take(k));
    assert(g.skip(1)[k] == ts.skip(c + 1)[k]);
    assert(zero_level_read(g.skip(1), stop) == k + 1);
    assert(zero_level_read(ts.skip(c + 1), stop) == k + 1);
    assert(zero_level_spec(g.skip(1), stop) == zero_level_spec(ts.skip(c + 1), stop));
    assert(g.skip(k + 2) =~= Seq::<Located<Token>>::empty());
    assert(seq![OpExpr::Expr(e, ts[c].start)].skip(1) =~= Seq::<OpExpr>::empty());
    assert(g[0] == ts[c]);
    assert(big[k + 1] == ts[c + k + 1]);
    assert(paren_items(Seq::<Located<Token>>::empty(), Seq::<OpExpr>::empty(), strings));
    assert(g.skip(1 + zero_level_read(g.skip(1), stop)) =~= Seq::<Located<Token>>::empty());
    assert(paren_items(g.skip(1 + zero_level_read(g.skip(1), stop)), seq![OpExpr::Expr(e, ts[c].start)].skip(1), strings));
    assert(ts.subrange(c, c + 1 + zero_level_read(ts.skip(c + 1), stop)) == g);
}

/// One more operator or one-token operand extends the items.
pub proof fn lemma_paren_step(ts: Seq<Located<Token>>, c: int, items: Seq<OpExpr>, x: OpExpr, strings: Seq<Seq<char>>)
    requires
        0 <= c < ts.len(),
        paren_items(ts.take(c), items, strings),
        (is_op_token(ts[c].data) && op_item_of(x, ts[c].data))
            || (is_atom_token(ts[c].data) && (x matches OpExpr::Expr(e, loc) && loc == ts[c].start && atom_item(ts[c], e, strings))),
    ensures
        paren_items(ts.take(c + 1), items.push(x), strings),
{
    let one = seq![ts[c]];
    assert(one[0] == ts[c]);
    assert(one.skip(1) =~= Seq::<Located<Token>>::empty());
    assert(seq![x].skip(1) =~= Seq::<OpExpr>::empty());
    assert(paren_items(Seq::<Located<Token>>::empty(), Seq::<OpExpr>::empty(), strings));
    assert(paren_items(one, seq![x], strings));
    lemma_paren_append(ts.take(c), items, one, seq![x], strings);
    assert(ts.take(c) + one =~= ts.take(c + 1));
    assert(items + seq![x] =~= items.push(x));
}

/// A parenthesized group extends the items.
pub proof fn lemma_paren_group_step(ts: Seq<Located<Token>>, c: int, items: Seq<OpExpr>, e: Expression, strings: Seq<Seq<char>>)
    requires
        0 <= c < ts.len(),
        paren_items(ts.take(c), items, strings),
        ts[c].data == Token::OpenGroup(Grouper::Parentheses),
        zero_level_spec(ts.skip(c + 1), Stop::Close(Grouper::Parentheses)) matches Ok(Ok((inner, _)))
            && paren_expr(inner, e, strings),
    ensures
        1 <= zero_level_read(ts.skip(c + 1), Stop::Close(Grouper::Parentheses)),
        c + 1 + zero_level_read(ts.skip(c + 1), Stop::Close(Grouper::Parentheses)) <= ts.len(),
        ts[c + zero_level_read(ts.skip(c + 1), Stop::Close(Grouper::Parentheses))].data == Token::CloseGroup(Grouper::Parentheses),
        paren_items(ts.take(c + 1 + zero_level_read(ts.skip(c + 1), Stop::Close(Grouper::Parentheses))),
            items.push(OpExpr::Expr(e, ts[c].start)), strings),
{
    let stop = Stop::Close(Grouper::Parentheses);
    lemma_paren_group(ts, c, e, strings);
    let end = c + 1 + zero_level_read(ts.skip(c + 1), stop);
    assert(c < end <= ts.len());
    lemma_paren_append(ts.take(c), items, ts.subrange(c, end), seq![OpExpr::Expr(e, ts[c].start)], strings);
    assert(ts.take(c) + ts.subrange(c, end) =~= ts.take(end));
    assert(items + seq![OpExpr::Expr(e, ts[c].start)] =~= items.push(OpExpr::Expr(e, ts[c].start)));
}

} // verus!
