use vstd::prelude::*;
use crate::token::{TokenType, CalcError, Look};
use crate::scan::{
    digits_value, is_white_space, is_digit, skip_blank, digits_end, scan, lemma_scan,
    lemma_skip_blank, lemma_digits_end, lemma_white_not_digit, lemma_digits_value_eq,
};
use crate::arithmetic::{Ast, lemma_standard_arithmetic};
use crate::semantics::{
    trunc_div, abs, valid_look, measure, expr_value, add_sub_value, add_sub_rest, mul_div_value,
    mul_div_rest, primary_value, evaluation, apply, lemma_progress_expr,
    lemma_progress_add_sub_rest, lemma_progress_mul_div, lemma_progress_mul_div_rest,
    lemma_progress_primary,
};

verus! {

/// `s` with `w` inserted before index `k`.
pub open spec fn spaced(s: Seq<char>, k: int, w: Seq<char>) -> Seq<char> {
    s.take(k) + w + s.skip(k)
}

pub open spec fn all_white(w: Seq<char>) -> bool {
    forall|i: int| 0 <= i < w.len() ==> is_white_space(#[trigger] w[i])
}

/// Index `k` of `s` lies between two tokens: it does not split a run of
/// digits.
pub open spec fn token_boundary(s: Seq<char>, k: int) -> bool {
    &&& 0 <= k <= s.len()
    &&& !(0 < k < s.len() && is_digit(s[k - 1]) && is_digit(s[k]))
}

/// Inserting white space between tokens never changes the outcome of an
/// evaluation: the same value, or the same error.
pub proof fn lemma_white_space_insensitive(s: Seq<char>, k: int, w: Seq<char>)
    requires
        token_boundary(s, k),
        all_white(w),
    ensures
        evaluation(spaced(s, k, w)) == evaluation(s),
{
    let t = spaced(s, k, w);
    lemma_spaced_index(s, k, w);
    lemma_scan_corr(s, t, k, w, 0, 0);
    lemma_scan(s, 0);
    lemma_scan(t, 0);
    if let Ok(a) = scan(s, 0) {
        let b = scan(t, 0)->Ok_0;
        lemma_cong_expr(s, t, k, w, a, b);
    }
}

/// Division rounds toward zero: the remainder `a - q * b` is smaller than
/// the divisor in magnitude and never has the opposite sign of `a`.
pub proof fn lemma_division_truncates(a: int, b: int)
    requires
        b != 0,
    ensures
        abs(a - trunc_div(a, b) * b) < abs(b),
        a >= 0 ==> a - trunc_div(a, b) * b >= 0,
        a <= 0 ==> a - trunc_div(a, b) * b <= 0,
{
    let x = abs(a);
    let y = abs(b);
    let q = x / y;
    vstd::arithmetic::div_mod::lemma_fundamental_div_mod(x, y);
    vstd::arithmetic::div_mod::lemma_mod_pos_bound(x, y);
    let m = x % y;
    assert(x == y * q + m);
    if a >= 0 && b > 0 {
        assert(trunc_div(a, b) * b == q * y) by (nonlinear_arith)
            requires trunc_div(a, b) == q, b == y;
    } else if a >= 0 {
        assert(trunc_div(a, b) * b == q * y) by (nonlinear_arith)
            requires trunc_div(a, b) == -q, b == -y;
    } else if b > 0 {
        assert(trunc_div(a, b) * b == -(q * y)) by (nonlinear_arith)
            requires trunc_div(a, b) == -q, b == y;
    } else {
        assert(trunc_div(a, b) * b == -(q * y)) by (nonlinear_arith)
            requires trunc_div(a, b) == q, b == -y;
    }
    assert(y * q == q * y) by (nonlinear_arith);
}

/// A literal alone evaluates to its digits read in base 10.
pub proof fn lemma_number_literal(d: Seq<char>)
    requires
        d.len() > 0,
        forall|i: int| 0 <= i < d.len() ==> is_digit(#[trigger] d[i]),
        digits_value(d, 0, d.len() as int) <= i32::MAX,
    ensures
        evaluation(d) == Ok::<int, CalcError>(digits_value(d, 0, d.len() as int)),
{
    let e = Ast::Num(d);
    assert(digits_value(d, 0, d.len() as int) >= 0) by {
        crate::scan::lemma_digits_value_grows(d, 0, 0, d.len() as int);
    }
    lemma_standard_arithmetic(e);
}

/// Leading zeros do not change the value of a literal.
pub proof fn lemma_leading_zeros(z: Seq<char>, d: Seq<char>)
    requires
        forall|i: int| 0 <= i < z.len() ==> #[trigger] z[i] == '0',
    ensures
        digits_value(z + d, 0, (z.len() + d.len()) as int) == digits_value(d, 0, d.len() as int),
    decreases d.len(),
{
    if d.len() == 0 {
        lemma_zeros_value(z, z + d, z.len() as int);
    } else {
        let d1 = d.drop_last();
        lemma_leading_zeros(z, d1);
        assert(z + d1 == (z + d).subrange(0, (z.len() + d1.len()) as int));
        lemma_digits_value_prefix(z + d, (z.len() + d1.len()) as int);
        lemma_digits_value_prefix(d, d1.len() as int);
        assert((z + d)[z.len() + d.len() - 1] == d[d.len() - 1]);
    }
}

proof fn lemma_zeros_value(z: Seq<char>, s: Seq<char>, k: int)
    requires
        0 <= k <= z.len(),
        z.len() <= s.len(),
        forall|i: int| 0 <= i < z.len() ==> #[trigger] z[i] == '0',
        forall|i: int| 0 <= i < z.len() ==> #[trigger] s[i] == z[i],
    ensures
        digits_value(s, 0, k) == 0,
    decreases k,
{
    if k > 0 {
        lemma_zeros_value(z, s, k - 1);
        assert(s[k - 1] == z[k - 1]);
    }
}

/// The value of the first `n` characters does not depend on what follows.
proof fn lemma_digits_value_prefix(s: Seq<char>, n: int)
    requires
        0 <= n <= s.len(),
    ensures
        digits_value(s.subrange(0, n), 0, n) == digits_value(s, 0, n),
    decreases n,
{
    if n > 0 {
        lemma_digits_value_prefix(s, n - 1);
        lemma_digits_value_eq(s.subrange(0, n), s.subrange(0, n - 1), 0, 0, n - 1);
        lemma_digits_value_eq(s.subrange(0, n - 1), s, 0, 0, n - 1);
    }
}

// Positions of `s` and of `t == spaced(s, k, w)` that scan alike: the same
// index before `k`, shifted by `w.len()` after it, and either at `k`.

spec fn shift(k: int, d: int, p: int) -> int {
    if p < k { p } else { p + d }
}

spec fn corr(k: int, d: int, p: int, q: int) -> bool {
    ||| (p < k && q == p)
    ||| (p > k && q == p + d)
    ||| (p == k && (q == k || q == k + d))
}

spec fn look_corr(k: int, d: int, a: Look, b: Look) -> bool {
    a.tok == b.tok && a.val == b.val && corr(k, d, a.pos, b.pos)
}

spec fn result_corr(k: int, d: int, x: Result<(int, Look), CalcError>, y: Result<(int, Look), CalcError>) -> bool {
    match x {
        Ok((v, a)) => match y {
            Ok((u, b)) => v == u && look_corr(k, d, a, b),
            Err(_) => false,
        },
        Err(e) => y == Err::<(int, Look), CalcError>(e),
    }
}

spec fn spaced_facts(s: Seq<char>, t: Seq<char>, k: int, w: Seq<char>) -> bool {
    &&& token_boundary(s, k)
    &&& all_white(w)
    &&& t == spaced(s, k, w)
    &&& t.len() == s.len() + w.len()
    &&& forall|m: int| 0 <= m < k ==> #[trigger] t[m] == s[m]
    &&& forall|i: int| 0 <= i < w.len() ==> t[k + i] == #[trigger] w[i]
    &&& forall|m: int| k <= m < s.len() ==> t[m + w.len()] == #[trigger] s[m]
}

proof fn lemma_spaced_index(s: Seq<char>, k: int, w: Seq<char>)
    requires
        token_boundary(s, k),
        all_white(w),
    ensures
        spaced_facts(s, spaced(s, k, w), k, w),
{
    let t = spaced(s, k, w);
    assert forall|m: int| k <= m < s.len() implies t[m + w.len()] == #[trigger] s[m] by {
        assert(t[m + w.len()] == s.skip(k)[m - k]);
    }
}

proof fn lemma_skip_right(s: Seq<char>, t: Seq<char>, k: int, w: Seq<char>, p: int)
    requires
        spaced_facts(s, t, k, w),
        k <= p <= s.len(),
    ensures
        skip_blank(t, p + w.len()) == skip_blank(s, p) + w.len(),
    decreases s.len() - p,
{
    if p < s.len() && is_white_space(s[p]) {
        lemma_skip_right(s, t, k, w, p + 1);
    }
}

proof fn lemma_skip_gap(s: Seq<char>, t: Seq<char>, k: int, w: Seq<char>, i: int)
    requires
        spaced_facts(s, t, k, w),
        0 <= i <= w.len(),
    ensures
        skip_blank(t, k + i) == skip_blank(t, k + w.len()),
    decreases w.len() - i,
{
    if i < w.len() {
        assert(t[k + i] == w[i]);
        lemma_skip_gap(s, t, k, w, i + 1);
    }
}

proof fn lemma_skip_corr(s: Seq<char>, t: Seq<char>, k: int, w: Seq<char>, p: int, q: int)
    requires
        spaced_facts(s, t, k, w),
        0 <= p <= s.len(),
        corr(k, w.len() as int, p, q),
    ensures
        skip_blank(t, q) == shift(k, w.len() as int, skip_blank(s, p)),
    decreases s.len() - p,
{
    lemma_skip_blank(s, p);
    if p < k {
        if is_white_space(s[p]) {
            lemma_skip_corr(s, t, k, w, p + 1, p + 1);
        }
    } else {
        lemma_skip_right(s, t, k, w, p);
        if q == k {
            lemma_skip_gap(s, t, k, w, 0);
        }
    }
}

proof fn lemma_digits_end_right(s: Seq<char>, t: Seq<char>, k: int, w: Seq<char>, p: int)
    requires
        spaced_facts(s, t, k, w),
        k <= p <= s.len(),
    ensures
        digits_end(t, p + w.len()) == digits_end(s, p) + w.len(),
    decreases s.len() - p,
{
    if p < s.len() && is_digit(s[p]) {
        lemma_digits_end_right(s, t, k, w, p + 1);
    }
}

proof fn lemma_digits_end_left(s: Seq<char>, t: Seq<char>, k: int, w: Seq<char>, p: int)
    requires
        spaced_facts(s, t, k, w),
        0 <= p < k,
    ensures
        digits_end(t, p) == digits_end(s, p),
        digits_end(s, p) <= k,
    decreases k - p,
{
    if is_digit(s[p]) {
        if p + 1 < k {
            lemma_digits_end_left(s, t, k, w, p + 1);
        } else {
            if k < s.len() {
                assert(!is_digit(s[k]));
            }
            assert(digits_end(s, k) == k);
            if w.len() > 0 {
                assert(t[k + 0] == w[0]);
                lemma_white_not_digit(w[0]);
            } else if k < s.len() {
                assert(t[k + w.len()] == s[k]);
            }
            assert(digits_end(t, k) == k);
        }
    }
}

proof fn lemma_scan_corr(s: Seq<char>, t: Seq<char>, k: int, w: Seq<char>, p: int, q: int)
    requires
        spaced_facts(s, t, k, w),
        0 <= p <= s.len(),
        corr(k, w.len() as int, p, q),
    ensures
        match scan(s, p) {
            Ok(a) => scan(t, q) is Ok && look_corr(k, w.len() as int, a, scan(t, q)->Ok_0),
            Err(e) => scan(t, q) == Err::<Look, CalcError>(e),
        },
{
    let d = w.len() as int;
    lemma_skip_corr(s, t, k, w, p, q);
    lemma_skip_blank(s, p);
    let j = skip_blank(s, p);
    let jt = shift(k, d, j);
    if j < s.len() {
        assert(t[jt] == s[j]);
        if is_digit(s[j]) {
            lemma_digits_end(s, j);
            let e = digits_end(s, j);
            if j < k {
                lemma_digits_end_left(s, t, k, w, j);
                lemma_digits_value_eq(s, t, j, 0, e - j);
            } else {
                lemma_digits_end_right(s, t, k, w, j);
                lemma_digits_value_eq(s, t, j, d, e - j);
            }
        }
    }
}

proof fn lemma_cong_expr(s: Seq<char>, t: Seq<char>, k: int, w: Seq<char>, a: Look, b: Look)
    requires
        spaced_facts(s, t, k, w),
        valid_look(s, a),
        valid_look(t, b),
        look_corr(k, w.len() as int, a, b),
    ensures
        result_corr(k, w.len() as int, expr_value(s, a), expr_value(t, b)),
    decreases measure(s, a), 5nat,
{
    lemma_cong_add_sub(s, t, k, w, a, b);
}

proof fn lemma_cong_add_sub(s: Seq<char>, t: Seq<char>, k: int, w: Seq<char>, a: Look, b: Look)
    requires
        spaced_facts(s, t, k, w),
        valid_look(s, a),
        valid_look(t, b),
        look_corr(k, w.len() as int, a, b),
    ensures
        result_corr(k, w.len() as int, add_sub_value(s, a), add_sub_value(t, b)),
    decreases measure(s, a), 4nat,
{
    lemma_cong_mul_div(s, t, k, w, a, b);
    lemma_progress_mul_div(s, a);
    lemma_progress_mul_div(t, b);
    if let Ok((v, a1)) = mul_div_value(s, a) {
        let b1 = mul_div_value(t, b)->Ok_0.1;
        lemma_cong_add_sub_rest(s, t, k, w, v, a1, b1);
    }
}

proof fn lemma_cong_add_sub_rest(
    s: Seq<char>,
    t: Seq<char>,
    k: int,
    w: Seq<char>,
    acc: int,
    a: Look,
    b: Look,
)
    requires
        spaced_facts(s, t, k, w),
        valid_look(s, a),
        valid_look(t, b),
        look_corr(k, w.len() as int, a, b),
        i32::MIN <= acc <= i32::MAX,
    ensures
        result_corr(k, w.len() as int, add_sub_rest(s, acc, a), add_sub_rest(t, acc, b)),
    decreases measure(s, a), 3nat,
{
    lemma_progress_add_sub_rest(s, acc, a);
    lemma_progress_add_sub_rest(t, acc, b);
    if a.tok == TokenType::Add || a.tok == TokenType::Sub {
        lemma_scan_corr(s, t, k, w, a.pos, b.pos);
        lemma_scan(s, a.pos);
        lemma_scan(t, b.pos);
        if let Ok(a1) = scan(s, a.pos) {
            let b1 = scan(t, b.pos)->Ok_0;
            lemma_cong_mul_div(s, t, k, w, a1, b1);
            lemma_progress_mul_div(s, a1);
            lemma_progress_mul_div(t, b1);
            if let Ok((v, a2)) = mul_div_value(s, a1) {
                let b2 = mul_div_value(t, b1)->Ok_0.1;
                if let Ok(r) = apply(a.tok, acc, v) {
                    lemma_cong_add_sub_rest(s, t, k, w, r, a2, b2);
                }
            }
        }
    }
}

proof fn lemma_cong_mul_div(s: Seq<char>, t: Seq<char>, k: int, w: Seq<char>, a: Look, b: Look)
    requires
        spaced_facts(s, t, k, w),
        valid_look(s, a),
        valid_look(t, b),
        look_corr(k, w.len() as int, a, b),
    ensures
        result_corr(k, w.len() as int, mul_div_value(s, a), mul_div_value(t, b)),
    decreases measure(s, a), 2nat,
{
    lemma_cong_primary(s, t, k, w, a, b);
    lemma_progress_primary(s, a);
    lemma_progress_primary(t, b);
    if let Ok((v, a1)) = primary_value(s, a) {
        let b1 = primary_value(t, b)->Ok_0.1;
        lemma_cong_mul_div_rest(s, t, k, w, v, a1, b1);
    }
}

proof fn lemma_cong_mul_div_rest(
    s: Seq<char>,
    t: Seq<char>,
    k: int,
    w: Seq<char>,
    acc: int,
    a: Look,
    b: Look,
)
    requires
        spaced_facts(s, t, k, w),
        valid_look(s, a),
        valid_look(t, b),
        look_corr(k, w.len() as int, a, b),
        i32::MIN <= acc <= i32::MAX,
    ensures
        result_corr(k, w.len() as int, mul_div_rest(s, acc, a), mul_div_rest(t, acc, b)),
    decreases measure(s, a), 1nat,
{
    lemma_progress_mul_div_rest(s, acc, a);
    lemma_progress_mul_div_rest(t, acc, b);
    if a.tok == TokenType::Mul || a.tok == TokenType::Div {
        lemma_scan_corr(s, t, k, w, a.pos, b.pos);
        lemma_scan(s, a.pos);
        lemma_scan(t, b.pos);
        if let Ok(a1) = scan(s, a.pos) {
            let b1 = scan(t, b.pos)->Ok_0;
            lemma_cong_primary(s, t, k, w, a1, b1);
            lemma_progress_primary(s, a1);
            lemma_progress_primary(t, b1);
            if let Ok((v, a2)) = primary_value(s, a1) {
                let b2 = primary_value(t, b1)->Ok_0.1;
                if let Ok(r) = apply(a.tok, acc, v) {
                    lemma_cong_mul_div_rest(s, t, k, w, r, a2, b2);
                }
            }
        }
    }
}

proof fn lemma_cong_primary(s: Seq<char>, t: Seq<char>, k: int, w: Seq<char>, a: Look, b: Look)
    requires
        spaced_facts(s, t, k, w),
        valid_look(s, a),
        valid_look(t, b),
        look_corr(k, w.len() as int, a, b),
    ensures
        result_corr(k, w.len() as int, primary_value(s, a), primary_value(t, b)),
    decreases measure(s, a), 0nat,
{
    if a.tok == TokenType::Number || a.tok == TokenType::Sub || a.tok == TokenType::LeftParen {
        lemma_scan_corr(s, t, k, w, a.pos, b.pos);
        lemma_scan(s, a.pos);
        lemma_scan(t, b.pos);
        if let Ok(a1) = scan(s, a.pos) {
            let b1 = scan(t, b.pos)->Ok_0;
            if a.tok == TokenType::Sub {
                if a1.tok == TokenType::Number {
                    lemma_scan_corr(s, t, k, w, a1.pos, b1.pos);
                } else if a1.tok == TokenType::LeftParen {
                    lemma_cong_primary(s, t, k, w, a1, b1);
                }
            } else if a.tok == TokenType::LeftParen {
                lemma_cong_expr(s, t, k, w, a1, b1);
                lemma_progress_expr(s, a1);
                lemma_progress_expr(t, b1);
                if let Ok((v, a2)) = expr_value(s, a1) {
                    let b2 = expr_value(t, b1)->Ok_0.1;
                    if a2.tok == TokenType::RightParen {
                        lemma_scan_corr(s, t, k, w, a2.pos, b2.pos);
                    }
                }
            }
        }
    }
}

} // verus!
