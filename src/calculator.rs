use vstd::prelude::*;
use crate::token::{TokenType, CalcError, Look};
use crate::scan::{
    is_white_space, is_digit, digit_value, skip_blank, digits_end, digits_value, scan,
    lemma_skip_blank, lemma_scan, lemma_digits_end, lemma_digits_value_grows,
};
use crate::semantics::{
    valid_look, apply, abs, expr_value, add_sub_value, add_sub_rest, mul_div_value, mul_div_rest,
    primary_value, evaluation, measure, lemma_progress_add_sub_rest, lemma_progress_mul_div,
    lemma_progress_mul_div_rest, lemma_progress_primary,
};

verus! {

/// Relies on `char::is_whitespace`: true exactly for the characters with
/// Unicode's `White_Space` property.
#[verifier::external_body]
fn char_is_whitespace(c: char) -> (r: bool)
    ensures
        r == is_white_space(c),
{
    c.is_whitespace()
}

/// Relies on `str::chars`: the characters of the string, in order.
#[verifier::external_body]
fn chars_of(s: &str) -> (r: Vec<char>)
    ensures
        r@ == s@,
{
    s.chars().collect()
}

/// The value of an ASCII decimal digit.
fn digit_of(c: char) -> (r: i32)
    requires
        is_digit(c),
    ensures
        r as int == digit_value(c),
        0 <= r <= 9,
{
    (c as u32 - '0' as u32) as i32
}

fn is_ascii_digit(c: char) -> (r: bool)
    ensures
        r == is_digit(c),
{
    '0' <= c && c <= '9'
}

/// `a op b` for one of `+ - * /`, with the errors of `apply`.
fn apply_op(op: TokenType, a: i32, b: i32) -> (r: Result<i32, CalcError>)
    requires
        op == TokenType::Add || op == TokenType::Sub || op == TokenType::Mul || op == TokenType::Div,
    ensures
        match apply(op, a as int, b as int) {
            Ok(v) => r is Ok && r->Ok_0 as int == v,
            Err(e) => r == Err::<i32, CalcError>(e),
        },
{
    let x = a as i64;
    let y = b as i64;
    let v: i64 = if op == TokenType::Add {
        x + y
    } else if op == TokenType::Sub {
        x - y
    } else if op == TokenType::Mul {
        proof {
            assert(-2147483648 * 2147483648 <= x * y <= 2147483648 * 2147483648) by (nonlinear_arith)
                requires
                    -2147483648 <= x <= 2147483647,
                    -2147483648 <= y <= 2147483647,
            ;
        }
        x * y
    } else {
        if y == 0 {
            return Err(CalcError::DivisionByZero);
        }
        let ux: u64 = if x < 0 { (-x) as u64 } else { x as u64 };
        let uy: u64 = if y < 0 { (-y) as u64 } else { y as u64 };
        let q: u64 = ux / uy;
        proof {
            assert(q <= ux) by (nonlinear_arith)
                requires
                    uy >= 1,
                    q == ux / uy,
            ;
            assert(q as int == abs(x as int) / abs(y as int));
        }
        if (x < 0) == (y < 0) {
            q as i64
        } else {
            -(q as i64)
        }
    };
    if v < i32::MIN as i64 || v > i32::MAX as i64 {
        return Err(CalcError::Overflow);
    }
    Ok(v as i32)
}

/// The cursor of one evaluation: the input characters, the index just past
/// the current token, the current token and, for a number, its value.
pub struct Calculator {
    pub src_chars: Vec<char>,
    pub current_index: usize,
    pub current_token: TokenType,
    pub number_val: i32,
    pub debug_mode: bool,
}

/// The exact outcome that a grammar function owes: the value and the state
/// after it, or the error.
pub open spec fn agrees(r: Result<i32, CalcError>, expected: Result<(int, Look), CalcError>, after: Look) -> bool {
    match expected {
        Ok((v, st)) => r is Ok && r->Ok_0 as int == v && after == st,
        Err(e) => r == Err::<i32, CalcError>(e),
    }
}

impl Calculator {
    /// The characters being scanned.
    pub open spec fn input(&self) -> Seq<char> {
        self.src_chars@
    }

    /// The lookahead state; the number value counts only under a `Number`.
    pub open spec fn look(&self) -> Look {
        Look {
            tok: self.current_token,
            val: if self.current_token == TokenType::Number { self.number_val as int } else { 0 },
            pos: self.current_index as int,
        }
    }

    pub open spec fn wf(&self) -> bool {
        valid_look(self.input(), self.look())
    }

    /// A cursor at the start of `src`, before any token has been scanned.
    pub fn new(src: String, debug: bool) -> (r: Calculator)
        ensures
            r.wf(),
            r.input() == src@,
            r.current_index == 0,
            r.current_token == TokenType::Unset,
            r.debug_mode == debug,
    {
        Calculator {
            src_chars: chars_of(src.as_str()),
            current_index: 0,
            current_token: TokenType::Unset,
            number_val: 0,
            debug_mode: debug,
        }
    }

    /// Skips white space, then takes the next token: an operator, a
    /// parenthesis, the maximal run of digits that follows, or the end.
    pub fn get_token(&mut self) -> (r: Result<(), CalcError>)
        requires
            old(self).wf(),
        ensures
            final(self).input() == old(self).input(),
            final(self).debug_mode == old(self).debug_mode,
            match scan(old(self).input(), old(self).current_index as int) {
                Ok(t) => r is Ok && final(self).look() == t,
                Err(e) => r == Err::<(), CalcError>(e),
            },
            r is Ok ==> final(self).wf(),
    {
        let ghost s = self.input();
        proof {
            lemma_skip_blank(s, self.current_index as int);
            lemma_scan(s, self.current_index as int);
        }
        let n = self.src_chars.len();
        let mut i = self.current_index;
        while i < n && char_is_whitespace(self.src_chars[i])
            invariant
                self.input() == s,
                s == old(self).input(),
                self.debug_mode == old(self).debug_mode,
                n == s.len(),
                old(self).current_index <= i <= n,
                skip_blank(s, i as int) == skip_blank(s, old(self).current_index as int),
            decreases n - i,
        {
            i = i + 1;
        }
        if i >= n {
            self.current_index = i;
            self.current_token = TokenType::End;
            return Ok(());
        }
        let c = self.src_chars[i];
        if c == '+' {
            self.current_token = TokenType::Add;
        } else if c == '-' {
            self.current_token = TokenType::Sub;
        } else if c == '*' {
            self.current_token = TokenType::Mul;
        } else if c == '/' {
            self.current_token = TokenType::Div;
        } else if c == '(' {
            self.current_token = TokenType::LeftParen;
        } else if c == ')' {
            self.current_token = TokenType::RightParen;
        } else if is_ascii_digit(c) {
            let start = i;
            let mut v: i32 = 0;
            proof {
                lemma_digits_end(s, start as int);
            }
            while i < n && is_ascii_digit(self.src_chars[i])
                invariant
                    self.input() == s,
                    s == old(self).input(),
                    self.debug_mode == old(self).debug_mode,
                    start as int == skip_blank(s, old(self).current_index as int),
                    n == s.len(),
                    start <= i <= n,
                    start < n,
                    is_digit(s[start as int]),
                    v as int == digits_value(s, start as int, i as int),
                    0 <= v,
                    forall|k: int| start <= k < i ==> is_digit(#[trigger] s[k]),
                    start as int <= digits_end(s, start as int) <= n,
                    forall|k: int| start <= k < digits_end(s, start as int) ==> is_digit(#[trigger] s[k]),
                    digits_end(s, start as int) < n ==> !is_digit(s[digits_end(s, start as int)]),
                    i <= digits_end(s, start as int),
                decreases n - i,
            {
                let d = digit_of(self.src_chars[i]);
                let next: i64 = v as i64 * 10 + d as i64;
                if next > i32::MAX as i64 {
                    proof {
                        lemma_digits_value_grows(s, start as int, i as int + 1, digits_end(s, start as int));
                    }
                    return Err(CalcError::Overflow);
                }
                v = next as i32;
                i = i + 1;
            }
            self.current_index = i;
            self.current_token = TokenType::Number;
            self.number_val = v;
            return Ok(());
        } else {
            return Err(CalcError::UnknownToken(c));
        }
        self.current_index = i + 1;
        Ok(())
    }

    /// `Expr ::= AddSubExpr`: evaluates an expression that starts at the
    /// current token.
    pub fn eval_expr(&mut self) -> (r: Result<i32, CalcError>)
        requires
            old(self).wf(),
        ensures
            final(self).input() == old(self).input(),
            final(self).debug_mode == old(self).debug_mode,
            agrees(r, expr_value(old(self).input(), old(self).look()), final(self).look()),
            r is Ok ==> final(self).wf(),
        decreases measure(old(self).input(), old(self).look()), 5nat,
    {
        self.eval_add_sub_expr()
    }

    /// `AddSubExpr ::= MulDivExpr { ('+'|'-') MulDivExpr }`, folded left.
    pub fn eval_add_sub_expr(&mut self) -> (r: Result<i32, CalcError>)
        requires
            old(self).wf(),
        ensures
            final(self).input() == old(self).input(),
            final(self).debug_mode == old(self).debug_mode,
            agrees(r, add_sub_value(old(self).input(), old(self).look()), final(self).look()),
            r is Ok ==> final(self).wf(),
        decreases measure(old(self).input(), old(self).look()), 4nat,
    {
        let ghost s = self.input();
        let ghost st0 = self.look();
        proof {
            lemma_progress_mul_div(s, st0);
        }
        let mut result = match self.eval_mul_div_expr() {
            Ok(v) => v,
            Err(e) => return Err(e),
        };
        while self.current_token == TokenType::Add || self.current_token == TokenType::Sub
            invariant
                self.wf(),
                self.input() == s,
                s == old(self).input(),
                st0 == old(self).look(),
                self.debug_mode == old(self).debug_mode,
                measure(s, self.look()) <= measure(s, st0),
                add_sub_rest(s, result as int, self.look()) == add_sub_value(s, st0),
            decreases measure(s, self.look()),
        {
            let ghost st = self.look();
            proof {
                lemma_progress_add_sub_rest(s, result as int, st);
                lemma_scan(s, st.pos);
            }
            let op = self.current_token;
            match self.get_token() {
                Ok(()) => {},
                Err(e) => return Err(e),
            }
            let ghost st1 = self.look();
            proof {
                lemma_progress_mul_div(s, st1);
            }
            let rhs = match self.eval_mul_div_expr() {
                Ok(v) => v,
                Err(e) => return Err(e),
            };
            result = match apply_op(op, result, rhs) {
                Ok(v) => v,
                Err(e) => return Err(e),
            };
        }
        Ok(result)
    }

    /// `MulDivExpr ::= PrimaryExpr { ('*'|'/') PrimaryExpr }`, folded left;
    /// a zero divisor is an error, tested before dividing.
    pub fn eval_mul_div_expr(&mut self) -> (r: Result<i32, CalcError>)
        requires
            old(self).wf(),
        ensures
            final(self).input() == old(self).input(),
            final(self).debug_mode == old(self).debug_mode,
            agrees(r, mul_div_value(old(self).input(), old(self).look()), final(self).look()),
            r is Ok ==> final(self).wf(),
        decreases measure(old(self).input(), old(self).look()), 2nat,
    {
        let ghost s = self.input();
        let ghost st0 = self.look();
        proof {
            lemma_progress_primary(s, st0);
        }
        let mut result = match self.eval_primary_expr() {
            Ok(v) => v,
            Err(e) => return Err(e),
        };
        while self.current_token == TokenType::Mul || self.current_token == TokenType::Div
            invariant
                self.wf(),
                self.input() == s,
                s == old(self).input(),
                st0 == old(self).look(),
                self.debug_mode == old(self).debug_mode,
                measure(s, self.look()) <= measure(s, st0),
                mul_div_rest(s, result as int, self.look()) == mul_div_value(s, st0),
            decreases measure(s, self.look()),
        {
            let ghost st = self.look();
            proof {
                lemma_progress_mul_div_rest(s, result as int, st);
                lemma_scan(s, st.pos);
            }
            let op = self.current_token;
            match self.get_token() {
                Ok(()) => {},
                Err(e) => return Err(e),
            }
            let ghost st1 = self.look();
            proof {
                lemma_progress_primary(s, st1);
            }
            let rhs = match self.eval_primary_expr() {
                Ok(v) => v,
                Err(e) => return Err(e),
            };
            result = match apply_op(op, result, rhs) {
                Ok(v) => v,
                Err(e) => return Err(e),
            };
        }
        Ok(result)
    }

    /// `PrimaryExpr ::= NUMBER | '-' PrimaryExpr | '(' Expr ')'`; a unary
    /// minus takes a number or a parenthesised expression.
    pub fn eval_primary_expr(&mut self) -> (r: Result<i32, CalcError>)
        requires
            old(self).wf(),
        ensures
            final(self).input() == old(self).input(),
            final(self).debug_mode == old(self).debug_mode,
            agrees(r, primary_value(old(self).input(), old(self).look()), final(self).look()),
            r is Ok ==> final(self).wf(),
        decreases measure(old(self).input(), old(self).look()), 0nat,
    {
        let ghost s = self.input();
        let ghost st0 = self.look();
        proof {
            lemma_scan(s, st0.pos);
        }
        if self.current_token == TokenType::Number {
            let val = self.number_val;
            match self.get_token() {
                Ok(()) => {},
                Err(e) => return Err(e),
            }
            Ok(val)
        } else if self.current_token == TokenType::Sub {
            match self.get_token() {
                Ok(()) => {},
                Err(e) => return Err(e),
            }
            let ghost st1 = self.look();
            proof {
                lemma_scan(s, st1.pos);
            }
            if self.current_token == TokenType::Number {
                let val = -self.number_val;
                match self.get_token() {
                    Ok(()) => {},
                    Err(e) => return Err(e),
                }
                Ok(val)
            } else if self.current_token == TokenType::LeftParen {
                let val = match self.eval_primary_expr() {
                    Ok(v) => v,
                    Err(e) => return Err(e),
                };
                if val == i32::MIN {
                    return Err(CalcError::Overflow);
                }
                Ok(-val)
            } else {
                Err(CalcError::UnaryMinusOperand)
            }
        } else if self.current_token == TokenType::LeftParen {
            match self.get_token() {
                Ok(()) => {},
                Err(e) => return Err(e),
            }
            let val = match self.eval_expr() {
                Ok(v) => v,
                Err(e) => return Err(e),
            };
            if self.current_token != TokenType::RightParen {
                return Err(CalcError::MissingCloseParen);
            }
            match self.get_token() {
                Ok(()) => {},
                Err(e) => return Err(e),
            }
            Ok(val)
        } else {
            Err(CalcError::IllegalPrimary)
        }
    }
}

/// Evaluates a whole expression: scans the first token, evaluates an
/// `Expr`, and requires the end of input after it.
pub fn evaluate(src: String) -> (r: Result<i32, CalcError>)
    ensures
        match evaluation(src@) {
            Ok(v) => r is Ok && r->Ok_0 as int == v,
            Err(e) => r == Err::<i32, CalcError>(e),
        },
{
    let mut calculator = Calculator::new(src, false);
    match calculator.get_token() {
        Ok(()) => {},
        Err(e) => return Err(e),
    }
    let value = match calculator.eval_expr() {
        Ok(v) => v,
        Err(e) => return Err(e),
    };
    if calculator.current_token != TokenType::End {
        return Err(CalcError::TrailingInput);
    }
    Ok(value)
}

} // verus!
