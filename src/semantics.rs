use vstd::prelude::*;
use crate::token::{TokenType, CalcError, Look};
use crate::scan::{scan, fits_i32, lemma_scan};

verus! {

/// What remains of the input from a lookahead state: the characters after
/// it, plus one for the current token while it is not `End`. Consuming a
/// token makes it smaller.
pub open spec fn measure(s: Seq<char>, st: Look) -> nat {
    let rest: nat = if 0 <= st.pos <= s.len() { (s.len() - st.pos) as nat } else { 0 };
    if st.tok == TokenType::End { rest } else { rest + 1 }
}

/// Division of integers, rounded toward zero.
pub open spec fn trunc_div(a: int, b: int) -> int {
    let q = abs(a) / abs(b);
    if (a < 0) == (b < 0) { q } else { -q }
}

pub open spec fn abs(a: int) -> int {
    if a < 0 { -a } else { a }
}

/// The outcome of applying `op` to two operands: `Overflow` when the exact
/// result leaves the range of `i32`.
pub open spec fn apply(op: TokenType, a: int, b: int) -> Result<int, CalcError> {
    let r = if op == TokenType::Add {
        a + b
    } else if op == TokenType::Sub {
        a - b
    } else if op == TokenType::Mul {
        a * b
    } else {
        trunc_div(a, b)
    };
    if op == TokenType::Div && b == 0 {
        Err(CalcError::DivisionByZero)
    } else if fits_i32(r) {
        Ok(r)
    } else {
        Err(CalcError::Overflow)
    }
}

// The grammar, one spec function per rule. Each takes the lookahead state
// on the first token of what it parses and gives the value of that part with
// the state just past it. The `measure` tests in the sequencing steps always
// hold (`lemma_progress_*`); they only make termination evident.

/// `Expr ::= AddSubExpr`
pub open spec fn expr_value(s: Seq<char>, st: Look) -> Result<(int, Look), CalcError>
    decreases measure(s, st), 5nat,
{
    add_sub_value(s, st)
}

/// `AddSubExpr ::= MulDivExpr { ('+'|'-') MulDivExpr }`
pub open spec fn add_sub_value(s: Seq<char>, st: Look) -> Result<(int, Look), CalcError>
    decreases measure(s, st), 4nat,
{
    match mul_div_value(s, st) {
        Err(e) => Err(e),
        Ok((v, st1)) => if measure(s, st1) <= measure(s, st) {
            add_sub_rest(s, v, st1)
        } else {
            Ok((v, st1))
        },
    }
}

/// The `{ ('+'|'-') MulDivExpr }` loop, folding left from `acc`.
pub open spec fn add_sub_rest(s: Seq<char>, acc: int, st: Look) -> Result<(int, Look), CalcError>
    decreases measure(s, st), 3nat,
{
    if st.tok == TokenType::Add || st.tok == TokenType::Sub {
        match scan(s, st.pos) {
            Err(e) => Err(e),
            Ok(st1) => if measure(s, st1) < measure(s, st) {
                match mul_div_value(s, st1) {
                    Err(e) => Err(e),
                    Ok((v, st2)) => match apply(st.tok, acc, v) {
                        Err(e) => Err(e),
                        Ok(r) => if measure(s, st2) < measure(s, st) {
                            add_sub_rest(s, r, st2)
                        } else {
                            Ok((r, st2))
                        },
                    },
                }
            } else {
                Ok((acc, st))
            },
        }
    } else {
        Ok((acc, st))
    }
}

/// `MulDivExpr ::= PrimaryExpr { ('*'|'/') PrimaryExpr }`
pub open spec fn mul_div_value(s: Seq<char>, st: Look) -> Result<(int, Look), CalcError>
    decreases measure(s, st), 2nat,
{
    match primary_value(s, st) {
        Err(e) => Err(e),
        Ok((v, st1)) => if measure(s, st1) <= measure(s, st) {
            mul_div_rest(s, v, st1)
        } else {
            Ok((v, st1))
        },
    }
}

/// The `{ ('*'|'/') PrimaryExpr }` loop, folding left from `acc`.
pub open spec fn mul_div_rest(s: Seq<char>, acc: int, st: Look) -> Result<(int, Look), CalcError>
    decreases measure(s, st), 1nat,
{
    if st.tok == TokenType::Mul || st.tok == TokenType::Div {
        match scan(s, st.pos) {
            Err(e) => Err(e),
            Ok(st1) => if measure(s, st1) < measure(s, st) {
                match primary_value(s, st1) {
                    Err(e) => Err(e),
                    Ok((v, st2)) => match apply(st.tok, acc, v) {
                        Err(e) => Err(e),
                        Ok(r) => if measure(s, st2) < measure(s, st) {
                            mul_div_rest(s, r, st2)
                        } else {
                            Ok((r, st2))
                        },
                    },
                }
            } else {
                Ok((acc, st))
            },
        }
    } else {
        Ok((acc, st))
    }
}

/// `PrimaryExpr ::= NUMBER | '-' PrimaryExpr | '(' Expr ')'`, where the
/// operand of a unary minus is a number or a parenthesised expression.
pub open spec fn primary_value(s: Seq<char>, st: Look) -> Result<(int, Look), CalcError>
    decreases measure(s, st), 0nat,
{
    if st.tok == TokenType::Number {
        match scan(s, st.pos) {
            Err(e) => Err(e),
            Ok(st1) => Ok((st.val, st1)),
        }
    } else if st.tok == TokenType::Sub {
        match scan(s, st.pos) {
            Err(e) => Err(e),
            Ok(st1) => if st1.tok == TokenType::Number {
                match scan(s, st1.pos) {
                    Err(e) => Err(e),
                    Ok(st2) => Ok((-st1.val, st2)),
                }
            } else if st1.tok == TokenType::LeftParen {
                if measure(s, st1) < measure(s, st) {
                    match primary_value(s, st1) {
                        Err(e) => Err(e),
                        Ok((v, st2)) => if fits_i32(-v) {
                            Ok((-v, st2))
                        } else {
                            Err(CalcError::Overflow)
                        },
                    }
                } else {
                    Err(CalcError::UnaryMinusOperand)
                }
            } else {
                Err(CalcError::UnaryMinusOperand)
            },
        }
    } else if st.tok == TokenType::LeftParen {
        match scan(s, st.pos) {
            Err(e) => Err(e),
            Ok(st1) => if measure(s, st1) < measure(s, st) {
                match expr_value(s, st1) {
                    Err(e) => Err(e),
                    Ok((v, st2)) => if st2.tok != TokenType::RightParen {
                        Err(CalcError::MissingCloseParen)
                    } else {
                        match scan(s, st2.pos) {
                            Err(e) => Err(e),
                            Ok(st3) => Ok((v, st3)),
                        }
                    },
                }
            } else {
                Err(CalcError::MissingCloseParen)
            },
        }
    } else {
        Err(CalcError::IllegalPrimary)
    }
}

/// The value of a whole input: the first token is scanned, an `Expr` is
/// evaluated, and nothing but the end of input may follow it.
pub open spec fn evaluation(s: Seq<char>) -> Result<int, CalcError> {
    match scan(s, 0) {
        Err(e) => Err(e),
        Ok(st) => match expr_value(s, st) {
            Err(e) => Err(e),
            Ok((v, st1)) => if st1.tok == TokenType::End {
                Ok(v)
            } else {
                Err(CalcError::TrailingInput)
            },
        },
    }
}

/// A lookahead state that the scanner can produce on `s` (or the state
/// before the first scan).
pub open spec fn valid_look(s: Seq<char>, st: Look) -> bool {
    &&& 0 <= st.pos <= s.len()
    &&& (st.tok == TokenType::Number ==> 0 <= st.val <= i32::MAX)
}

/// What each grammar function guarantees of a successful result: the state
/// stays valid, nothing is un-consumed, and the value fits in an `i32`.
pub open spec fn progress(s: Seq<char>, st: Look, r: Result<(int, Look), CalcError>) -> bool {
    r is Ok ==> {
        let (v, st1) = r->Ok_0;
        &&& valid_look(s, st1)
        &&& measure(s, st1) <= measure(s, st)
        &&& fits_i32(v)
    }
}

pub proof fn lemma_scan_step(s: Seq<char>, st: Look)
    requires
        valid_look(s, st),
        st.tok != TokenType::End,
    ensures
        scan(s, st.pos) is Ok ==> valid_look(s, scan(s, st.pos)->Ok_0)
            && measure(s, scan(s, st.pos)->Ok_0) < measure(s, st),
{
    lemma_scan(s, st.pos);
}

pub proof fn lemma_progress_expr(s: Seq<char>, st: Look)
    requires
        valid_look(s, st),
    ensures
        progress(s, st, expr_value(s, st)),
    decreases measure(s, st), 5nat,
{
    lemma_progress_add_sub(s, st);
}

pub proof fn lemma_progress_add_sub(s: Seq<char>, st: Look)
    requires
        valid_look(s, st),
    ensures
        progress(s, st, add_sub_value(s, st)),
    decreases measure(s, st), 4nat,
{
    lemma_progress_mul_div(s, st);
    if let Ok((v, st1)) = mul_div_value(s, st) {
        lemma_progress_add_sub_rest(s, v, st1);
    }
}

pub proof fn lemma_progress_add_sub_rest(s: Seq<char>, acc: int, st: Look)
    requires
        valid_look(s, st),
        fits_i32(acc),
    ensures
        progress(s, st, add_sub_rest(s, acc, st)),
    decreases measure(s, st), 3nat,
{
    if st.tok == TokenType::Add || st.tok == TokenType::Sub {
        lemma_scan_step(s, st);
        if let Ok(st1) = scan(s, st.pos) {
            lemma_progress_mul_div(s, st1);
            if let Ok((v, st2)) = mul_div_value(s, st1) {
                if let Ok(r) = apply(st.tok, acc, v) {
                    lemma_progress_add_sub_rest(s, r, st2);
                }
            }
        }
    }
}

pub proof fn lemma_progress_mul_div(s: Seq<char>, st: Look)
    requires
        valid_look(s, st),
    ensures
        progress(s, st, mul_div_value(s, st)),
    decreases measure(s, st), 2nat,
{
    lemma_progress_primary(s, st);
    if let Ok((v, st1)) = primary_value(s, st) {
        lemma_progress_mul_div_rest(s, v, st1);
    }
}

pub proof fn lemma_progress_mul_div_rest(s: Seq<char>, acc: int, st: Look)
    requires
        valid_look(s, st),
        fits_i32(acc),
    ensures
        progress(s, st, mul_div_rest(s, acc, st)),
    decreases measure(s, st), 1nat,
{
    if st.tok == TokenType::Mul || st.tok == TokenType::Div {
        lemma_scan_step(s, st);
        if let Ok(st1) = scan(s, st.pos) {
            lemma_progress_primary(s, st1);
            if let Ok((v, st2)) = primary_value(s, st1) {
                if let Ok(r) = apply(st.tok, acc, v) {
                    lemma_progress_mul_div_rest(s, r, st2);
                }
            }
        }
    }
}

pub proof fn lemma_progress_primary(s: Seq<char>, st: Look)
    requires
        valid_look(s, st),
    ensures
        progress(s, st, primary_value(s, st)),
    decreases measure(s, st), 0nat,
{
    if st.tok == TokenType::Number || st.tok == TokenType::Sub || st.tok == TokenType::LeftParen {
        lemma_scan_step(s, st);
        if let Ok(st1) = scan(s, st.pos) {
            if st.tok == TokenType::Sub {
                if st1.tok == TokenType::Number {
                    lemma_scan_step(s, st1);
                } else if st1.tok == TokenType::LeftParen {
                    lemma_progress_primary(s, st1);
                }
            } else if st.tok == TokenType::LeftParen {
                lemma_progress_expr(s, st1);
                if let Ok((v, st2)) = expr_value(s, st1) {
                    if st2.tok == TokenType::RightParen {
                        lemma_scan_step(s, st2);
                    }
                }
            }
        }
    }
}

} // verus!
