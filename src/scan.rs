use vstd::prelude::*;
use crate::token::{TokenType, CalcError, Look};

verus! {

/// The characters with Unicode's `White_Space` property.
pub open spec fn is_white_space(c: char) -> bool {
    ('\u{9}' <= c && c <= '\u{d}')
    || c == ' '
    || c == '\u{85}'
    || c == '\u{a0}'
    || c == '\u{1680}'
    || ('\u{2000}' <= c && c <= '\u{200a}')
    || c == '\u{2028}'
    || c == '\u{2029}'
    || c == '\u{202f}'
    || c == '\u{205f}'
    || c == '\u{3000}'
}

pub open spec fn is_digit(c: char) -> bool {
    '0' <= c && c <= '9'
}

pub open spec fn digit_value(c: char) -> int {
    c as int - '0' as int
}

/// The first index at or after `i` that does not hold white space.
pub open spec fn skip_blank(s: Seq<char>, i: int) -> int
    decreases s.len() - i,
{
    if 0 <= i < s.len() && is_white_space(s[i]) {
        skip_blank(s, i + 1)
    } else {
        i
    }
}

/// The end of the run of decimal digits that starts at `i`.
pub open spec fn digits_end(s: Seq<char>, i: int) -> int
    decreases s.len() - i,
{
    if 0 <= i < s.len() && is_digit(s[i]) {
        digits_end(s, i + 1)
    } else {
        i
    }
}

/// The characters `s[i..j]` read as a base-10 integer.
pub open spec fn digits_value(s: Seq<char>, i: int, j: int) -> int
    decreases j - i,
{
    if j <= i {
        0
    } else {
        digits_value(s, i, j - 1) * 10 + digit_value(s[j - 1])
    }
}

pub open spec fn fits_i32(v: int) -> bool {
    i32::MIN <= v <= i32::MAX
}

/// The token that a scan from index `i` produces: white space is skipped,
/// then one operator, parenthesis or maximal run of digits is taken.
pub open spec fn scan(s: Seq<char>, i: int) -> Result<Look, CalcError> {
    let j = skip_blank(s, i);
    if j < 0 || j >= s.len() {
        Ok(Look { tok: TokenType::End, val: 0, pos: j })
    } else {
        let c = s[j];
        if c == '+' {
            Ok(Look { tok: TokenType::Add, val: 0, pos: j + 1 })
        } else if c == '-' {
            Ok(Look { tok: TokenType::Sub, val: 0, pos: j + 1 })
        } else if c == '*' {
            Ok(Look { tok: TokenType::Mul, val: 0, pos: j + 1 })
        } else if c == '/' {
            Ok(Look { tok: TokenType::Div, val: 0, pos: j + 1 })
        } else if c == '(' {
            Ok(Look { tok: TokenType::LeftParen, val: 0, pos: j + 1 })
        } else if c == ')' {
            Ok(Look { tok: TokenType::RightParen, val: 0, pos: j + 1 })
        } else if is_digit(c) {
            let e = digits_end(s, j);
            let v = digits_value(s, j, e);
            if v <= i32::MAX {
                Ok(Look { tok: TokenType::Number, val: v, pos: e })
            } else {
                Err(CalcError::Overflow)
            }
        } else {
            Err(CalcError::UnknownToken(c))
        }
    }
}

pub proof fn lemma_skip_blank(s: Seq<char>, i: int)
    requires
        0 <= i <= s.len(),
    ensures
        i <= skip_blank(s, i) <= s.len(),
        skip_blank(s, i) < s.len() ==> !is_white_space(s[skip_blank(s, i)]),
        forall|k: int| i <= k < skip_blank(s, i) ==> is_white_space(#[trigger] s[k]),
    decreases s.len() - i,
{
    if i < s.len() && is_white_space(s[i]) {
        lemma_skip_blank(s, i + 1);
    }
}

pub proof fn lemma_digits_end(s: Seq<char>, i: int)
    requires
        0 <= i <= s.len(),
    ensures
        i <= digits_end(s, i) <= s.len(),
        digits_end(s, i) < s.len() ==> !is_digit(s[digits_end(s, i)]),
        forall|k: int| i <= k < digits_end(s, i) ==> is_digit(#[trigger] s[k]),
    decreases s.len() - i,
{
    if i < s.len() && is_digit(s[i]) {
        lemma_digits_end(s, i + 1);
    }
}

/// A longer run of digits never reads as a smaller number.
pub proof fn lemma_digits_value_grows(s: Seq<char>, i: int, j: int, k: int)
    requires
        0 <= i <= j <= k <= s.len(),
        forall|m: int| i <= m < k ==> is_digit(#[trigger] s[m]),
    ensures
        0 <= digits_value(s, i, j) <= digits_value(s, i, k),
    decreases k - i,
{
    if k > j {
        lemma_digits_value_grows(s, i, j, k - 1);
        assert(is_digit(s[k - 1]));
    } else if j > i {
        lemma_digits_value_grows(s, i, j - 1, j - 1);
        assert(is_digit(s[j - 1]));
    }
}

/// A successful scan from a valid index stays within the input; it moves
/// forward past the token unless the input is used up.
pub proof fn lemma_scan(s: Seq<char>, i: int)
    requires
        0 <= i <= s.len(),
    ensures
        scan(s, i) is Ok ==> {
            let t = scan(s, i)->Ok_0;
            &&& i <= t.pos <= s.len()
            &&& t.tok != TokenType::Unset
            &&& (t.tok == TokenType::End <==> t.pos == s.len() && skip_blank(s, i) == s.len())
            &&& (t.tok != TokenType::End ==> i < t.pos)
            &&& (t.tok == TokenType::Number ==> 0 <= t.val <= i32::MAX)
        },
{
    lemma_skip_blank(s, i);
    let j = skip_blank(s, i);
    if j < s.len() && is_digit(s[j]) {
        lemma_digits_end(s, j);
        lemma_digits_value_grows(s, j, j, digits_end(s, j));
    }
}

/// No white-space character is a decimal digit.
pub proof fn lemma_white_not_digit(c: char)
    ensures
        is_white_space(c) ==> !is_digit(c),
{
}

/// Two runs of characters that agree read as the same number.
pub proof fn lemma_digits_value_eq(s: Seq<char>, t: Seq<char>, i: int, o: int, n: int)
    requires
        0 <= n,
        0 <= i,
        i + n <= s.len(),
        0 <= i + o,
        i + o + n <= t.len(),
        forall|m: int| i <= m < i + n ==> #[trigger] s[m] == t[m + o],
    ensures
        digits_value(s, i, i + n) == digits_value(t, i + o, i + o + n),
    decreases n,
{
    if n > 0 {
        lemma_digits_value_eq(s, t, i, o, n - 1);
        assert(s[i + n - 1] == t[i + n - 1 + o]);
        assert(i + o + n - 1 == i + n - 1 + o);
    }
}

} // verus!
