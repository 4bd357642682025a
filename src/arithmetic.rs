use vstd::prelude::*;
use crate::token::{TokenType, CalcError, Look};
use crate::scan::{
    is_white_space, is_digit, digits_end, digits_value, fits_i32, scan, lemma_scan,
    lemma_white_not_digit, lemma_digits_value_eq,
};
use crate::semantics::{
    trunc_div, apply, add_sub_value, add_sub_rest, mul_div_value, mul_div_rest, primary_value,
    expr_value, evaluation, lemma_scan_step, lemma_progress_primary, lemma_progress_mul_div,
};

verus! {

/// An arithmetic expression: a decimal literal, a negation, or one of the
/// four binary operations.
pub enum Ast {
    Num(Seq<char>),
    Neg(Box<Ast>),
    Add(Box<Ast>, Box<Ast>),
    Sub(Box<Ast>, Box<Ast>),
    Mul(Box<Ast>, Box<Ast>),
    Div(Box<Ast>, Box<Ast>),
}

/// The value of an expression in integer arithmetic, with division rounded
/// toward zero.
pub open spec fn value(e: Ast) -> int
    decreases e,
{
    match e {
        Ast::Num(d) => digits_value(d, 0, d.len() as int),
        Ast::Neg(x) => -value(*x),
        Ast::Add(a, b) => value(*a) + value(*b),
        Ast::Sub(a, b) => value(*a) - value(*b),
        Ast::Mul(a, b) => value(*a) * value(*b),
        Ast::Div(a, b) => trunc_div(value(*a), value(*b)),
    }
}

/// Every literal is a non-empty run of decimal digits, no divisor is zero,
/// and the value of every part fits in an `i32`.
pub open spec fn computable(e: Ast) -> bool
    decreases e,
{
    &&& fits_i32(value(e))
    &&& match e {
        Ast::Num(d) => d.len() > 0 && forall|i: int| 0 <= i < d.len() ==> is_digit(#[trigger] d[i]),
        Ast::Neg(x) => computable(*x),
        Ast::Add(a, b) => computable(*a) && computable(*b),
        Ast::Sub(a, b) => computable(*a) && computable(*b),
        Ast::Mul(a, b) => computable(*a) && computable(*b),
        Ast::Div(a, b) => computable(*a) && computable(*b) && value(*b) != 0,
    }
}

/// The text of `e` with as few parentheses as the grammar needs, where `lvl`
/// is the position it stands in: 0 an operand of `+`/`-` on the left or a
/// whole expression, 1 a left operand of `*`/`/` or a right operand of
/// `+`/`-`, 2 a right operand of `*`/`/`, 3 inside parentheses.
pub open spec fn render(e: Ast, lvl: int) -> Seq<char>
    decreases e,
{
    match e {
        Ast::Num(d) => if lvl == 3 { seq!['('] + d + seq![')'] } else { d },
        Ast::Neg(x) => {
            let inner = match *x {
                Ast::Num(d) => seq!['-'] + d,
                _ => seq!['-'] + render(*x, 3),
            };
            if lvl == 3 { seq!['('] + inner + seq![')'] } else { inner }
        },
        Ast::Add(a, b) => {
            let inner = render(*a, 0) + seq!['+'] + render(*b, 1);
            if lvl >= 1 { seq!['('] + inner + seq![')'] } else { inner }
        },
        Ast::Sub(a, b) => {
            let inner = render(*a, 0) + seq!['-'] + render(*b, 1);
            if lvl >= 1 { seq!['('] + inner + seq![')'] } else { inner }
        },
        Ast::Mul(a, b) => {
            let inner = render(*a, 1) + seq!['*'] + render(*b, 2);
            if lvl >= 2 { seq!['('] + inner + seq![')'] } else { inner }
        },
        Ast::Div(a, b) => {
            let inner = render(*a, 1) + seq!['/'] + render(*b, 2);
            if lvl >= 2 { seq!['('] + inner + seq![')'] } else { inner }
        },
    }
}

/// For every expression whose parts all fit in an `i32` and whose divisors
/// are non-zero, evaluating its text gives its value in integer arithmetic:
/// `*` and `/` bind tighter than `+` and `-`, operators of one level group
/// from the left, and division rounds toward zero.
pub proof fn lemma_standard_arithmetic(e: Ast)
    requires
        computable(e),
    ensures
        evaluation(render(e, 0)) == Ok::<int, CalcError>(value(e)),
{
    let s = render(e, 0);
    assert forall|i: int| 0 <= i < s.len() implies s[0 + i] == #[trigger] s[i] by {}
    lemma_render(e, 0, s, 0);
    lemma_scan(s, 0);
}

spec fn occurs_at(s: Seq<char>, p: int, r: Seq<char>) -> bool {
    &&& 0 <= p
    &&& p + r.len() <= s.len()
    &&& forall|i: int| 0 <= i < r.len() ==> s[p + i] == #[trigger] r[i]
}

proof fn lemma_occurs_concat(s: Seq<char>, p: int, a: Seq<char>, b: Seq<char>)
    requires
        occurs_at(s, p, a + b),
    ensures
        occurs_at(s, p, a),
        occurs_at(s, p + a.len(), b),
{
    assert forall|i: int| 0 <= i < a.len() implies s[p + i] == #[trigger] a[i] by {
        assert((a + b)[i] == a[i]);
    }
    assert forall|i: int| 0 <= i < b.len() implies s[(p + a.len()) + i] == #[trigger] b[i] by {
        assert((a + b)[a.len() + i] == b[i]);
        assert(p + (a.len() + i) == (p + a.len()) + i);
    }
}

proof fn lemma_scan_char(s: Seq<char>, q: int)
    requires
        0 <= q < s.len(),
        s[q] == '+' || s[q] == '-' || s[q] == '*' || s[q] == '/' || s[q] == '(' || s[q] == ')',
    ensures
        scan(s, q) is Ok,
        scan(s, q)->Ok_0.pos == q + 1,
        s[q] == '+' ==> scan(s, q)->Ok_0.tok == TokenType::Add,
        s[q] == '-' ==> scan(s, q)->Ok_0.tok == TokenType::Sub,
        s[q] == '*' ==> scan(s, q)->Ok_0.tok == TokenType::Mul,
        s[q] == '/' ==> scan(s, q)->Ok_0.tok == TokenType::Div,
        s[q] == '(' ==> scan(s, q)->Ok_0.tok == TokenType::LeftParen,
        s[q] == ')' ==> scan(s, q)->Ok_0.tok == TokenType::RightParen,
{
    assert(!is_white_space(s[q]));
}

proof fn lemma_digits_end_at(s: Seq<char>, q: int, d: Seq<char>, i: int)
    requires
        occurs_at(s, q, d),
        forall|m: int| 0 <= m < d.len() ==> is_digit(#[trigger] d[m]),
        q + d.len() < s.len() ==> !is_digit(s[q + d.len()]),
        0 <= i <= d.len(),
    ensures
        digits_end(s, q + i) == q + d.len(),
    decreases d.len() - i,
{
    if i < d.len() {
        assert(s[q + i] == d[i]);
        lemma_digits_end_at(s, q, d, i + 1);
    }
}

proof fn lemma_scan_number(s: Seq<char>, q: int, d: Seq<char>)
    requires
        occurs_at(s, q, d),
        d.len() > 0,
        forall|m: int| 0 <= m < d.len() ==> is_digit(#[trigger] d[m]),
        q + d.len() < s.len() ==> !is_digit(s[q + d.len()]),
        digits_value(d, 0, d.len() as int) <= i32::MAX,
    ensures
        scan(s, q) == Ok::<Look, CalcError>(
            Look { tok: TokenType::Number, val: digits_value(d, 0, d.len() as int), pos: q + d.len() },
        ),
{
    assert(s[q + 0] == d[0]);
    lemma_white_not_digit(d[0]);
    lemma_digits_end_at(s, q, d, 0);
    assert forall|m: int| 0 <= m < 0 + d.len() implies #[trigger] d[m] == s[m + q] by {
        assert(s[q + m] == d[m]);
    }
    lemma_digits_value_eq(d, s, 0, q, d.len() as int);
}

/// The order in which the cases of `lemma_render` call each other on one
/// expression.
spec fn rank(e: Ast, lvl: int) -> int {
    match e {
        Ast::Add(_, _) | Ast::Sub(_, _) => if lvl == 0 { 0 } else { 4 - lvl },
        Ast::Mul(_, _) | Ast::Div(_, _) => if lvl == 1 { 0 } else if lvl == 0 { 1 } else { 5 - lvl },
        _ => if lvl == 3 { 3 } else { 2 - lvl },
    }
}

spec fn is_additive(e: Ast) -> bool {
    e is Add || e is Sub
}

spec fn is_multiplicative(e: Ast) -> bool {
    e is Mul || e is Div
}

/// `render(e, lvl)` stands at index `p` of `s`, followed by a character and
/// a token that end it.
spec fn placed(e: Ast, lvl: int, s: Seq<char>, p: int) -> bool {
    let q = p + render(e, lvl).len();
    &&& computable(e)
    &&& 0 <= lvl <= 3
    &&& occurs_at(s, p, render(e, lvl))
    &&& (q < s.len() ==> !is_digit(s[q]))
    &&& scan(s, q) is Ok
    &&& (lvl == 0 ==> scan(s, q)->Ok_0.tok != TokenType::Mul && scan(s, q)->Ok_0.tok != TokenType::Div)
}

/// The grammar function for position `lvl`, started on the first token of
/// `render(e, lvl)`, yields `value(e)` and continues from the token after it.
spec fn parses(e: Ast, lvl: int, s: Seq<char>, p: int) -> bool {
    let st = scan(s, p)->Ok_0;
    let nx = scan(s, p + render(e, lvl).len())->Ok_0;
    &&& scan(s, p) is Ok
    &&& lvl == 0 ==> add_sub_value(s, st) == add_sub_rest(s, value(e), nx)
    &&& lvl == 1 ==> mul_div_value(s, st) == mul_div_rest(s, value(e), nx)
    &&& lvl >= 2 ==> primary_value(s, st) == Ok::<(int, Look), CalcError>((value(e), nx))
}

proof fn lemma_render(e: Ast, lvl: int, s: Seq<char>, p: int)
    requires
        placed(e, lvl, s, p),
    ensures
        parses(e, lvl, s, p),
    decreases e, rank(e, lvl), 1nat,
{
    let r = render(e, lvl);
    let q = p + r.len();
    lemma_scan(s, q);
    let nx = scan(s, q)->Ok_0;
    if lvl == 3 {
        lemma_render_paren(e, s, p);
    } else if lvl == 2 && e is Num {
        let d = e->Num_0;
        lemma_scan_number(s, p, d);
    } else if lvl == 2 && e is Neg {
        lemma_render_neg(e, s, p);
    } else if lvl == 1 && is_multiplicative(e) {
        lemma_render_mul(e, s, p);
    } else if lvl == 0 && is_additive(e) {
        lemma_render_add(e, s, p);
    } else {
        // the text is that of the next position down
        let lower = if lvl == 1 && is_additive(e) || lvl == 2 { 3 } else { lvl + 1 };
        assert(r == render(e, lower));
        lemma_render(e, lower, s, p);
        lemma_scan(s, p);
        let st = scan(s, p)->Ok_0;
        if lvl == 1 {
            lemma_progress_primary(s, st);
        } else if lvl == 0 {
            lemma_progress_mul_div(s, st);
            assert(mul_div_rest(s, value(e), nx) == Ok::<(int, Look), CalcError>((value(e), nx)));
        }
    }
}

proof fn lemma_render_paren(e: Ast, s: Seq<char>, p: int)
    requires
        placed(e, 3, s, p),
    ensures
        parses(e, 3, s, p),
    decreases e, rank(e, 3), 0nat,
{
    let r = render(e, 3);
    let r0 = render(e, 0);
    assert(r == seq!['('] + r0 + seq![')']) by {
        reveal_with_fuel(render, 2);
    }
    lemma_occurs_concat(s, p, seq!['('] + r0, seq![')']);
    lemma_occurs_concat(s, p, seq!['('], r0);
    assert(s[p + 0] == seq!['('][0]);
    assert(s[(p + 1 + r0.len()) + 0] == seq![')'][0]);
    lemma_scan_char(s, p);
    lemma_scan_char(s, p + 1 + r0.len());
    lemma_render(e, 0, s, p + 1);
    let st = scan(s, p)->Ok_0;
    let st1 = scan(s, p + 1)->Ok_0;
    let rp = scan(s, p + 1 + r0.len())->Ok_0;
    lemma_scan(s, p);
    lemma_scan_step(s, st);
    assert(add_sub_rest(s, value(e), rp) == Ok::<(int, Look), CalcError>((value(e), rp)));
    assert(expr_value(s, st1) == add_sub_value(s, st1));
}

proof fn lemma_render_neg(e: Ast, s: Seq<char>, p: int)
    requires
        placed(e, 2, s, p),
        e is Neg,
    ensures
        parses(e, 2, s, p),
    decreases e, rank(e, 2), 0nat,
{
    let r = render(e, 2);
    let x = *e->Neg_0;
    let rest = if x is Num { x->Num_0 } else { render(x, 3) };
    assert(r == seq!['-'] + rest);
    lemma_occurs_concat(s, p, seq!['-'], rest);
    assert(s[p + 0] == seq!['-'][0]);
    lemma_scan_char(s, p);
    lemma_scan(s, p);
    let st = scan(s, p)->Ok_0;
    assert(computable(x));
    if x is Num {
        assert(computable(x));
        lemma_scan_number(s, p + 1, rest);
    } else {
        lemma_render_opens(x);
        assert(s[(p + 1) + 0] == rest[0]);
        lemma_scan_char(s, p + 1);
        lemma_scan_step(s, st);
        lemma_render(x, 3, s, p + 1);
    }
}

proof fn lemma_render_mul(e: Ast, s: Seq<char>, p: int)
    requires
        placed(e, 1, s, p),
        is_multiplicative(e),
    ensures
        parses(e, 1, s, p),
    decreases e, rank(e, 1), 0nat,
{
    let (a, b) = match e {
        Ast::Mul(a, b) => (*a, *b),
        Ast::Div(a, b) => (*a, *b),
        _ => arbitrary(),
    };
    let r = render(e, 1);
    let ra = render(a, 1);
    let rb = render(b, 2);
    let op = if e is Mul { '*' } else { '/' };
    assert(r == ra + seq![op] + rb);
    lemma_occurs_concat(s, p, ra + seq![op], rb);
    lemma_occurs_concat(s, p, ra, seq![op]);
    let o = p + ra.len();
    assert(s[o + 0] == seq![op][0]);
    lemma_scan_char(s, o);
    lemma_render(a, 1, s, p);
    lemma_render(b, 2, s, o + 1);
    let nxa = scan(s, o)->Ok_0;
    let stb = scan(s, o + 1)->Ok_0;
    lemma_scan(s, o);
    lemma_scan(s, o + 1);
    lemma_scan(s, p + r.len());
    lemma_scan_step(s, nxa);
    lemma_progress_primary(s, stb);
    assert(apply(nxa.tok, value(a), value(b)) == Ok::<int, CalcError>(value(e)));
}

proof fn lemma_render_add(e: Ast, s: Seq<char>, p: int)
    requires
        placed(e, 0, s, p),
        is_additive(e),
    ensures
        parses(e, 0, s, p),
    decreases e, rank(e, 0), 0nat,
{
    let (a, b) = match e {
        Ast::Add(a, b) => (*a, *b),
        Ast::Sub(a, b) => (*a, *b),
        _ => arbitrary(),
    };
    let r = render(e, 0);
    let ra = render(a, 0);
    let rb = render(b, 1);
    let op = if e is Add { '+' } else { '-' };
    assert(r == ra + seq![op] + rb);
    lemma_occurs_concat(s, p, ra + seq![op], rb);
    lemma_occurs_concat(s, p, ra, seq![op]);
    let o = p + ra.len();
    assert(s[o + 0] == seq![op][0]);
    lemma_scan_char(s, o);
    lemma_render(a, 0, s, p);
    lemma_render(b, 1, s, o + 1);
    let nx = scan(s, p + r.len())->Ok_0;
    let nxa = scan(s, o)->Ok_0;
    let stb = scan(s, o + 1)->Ok_0;
    lemma_scan(s, o);
    lemma_scan(s, o + 1);
    lemma_scan(s, p + r.len());
    lemma_scan_step(s, nxa);
    lemma_progress_mul_div(s, stb);
    assert(mul_div_rest(s, value(b), nx) == Ok::<(int, Look), CalcError>((value(b), nx)));
    assert(apply(nxa.tok, value(a), value(b)) == Ok::<int, CalcError>(value(e)));
}

/// The text of an expression in parentheses opens with `(`.
proof fn lemma_render_opens(e: Ast)
    ensures
        render(e, 3).len() > 0,
        render(e, 3)[0] == '(',
{
}

} // verus!
