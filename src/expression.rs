//! Arithmetic expressions: tokens, the syntax tree, parsing and evaluation.
use crate::checked_pow::{abs, pow_in_range, CheckedPow};
use crate::conv::{letter_value, numeral_result, numeral_value_of};
use crate::text::{chars_of, push_char, quoted};
use vstd::prelude::*;
use vstd::string::*;

verus! {

/// Representation of BODMAS operations.
///
/// Each composite node owns its children through a `Box`.
#[derive(Debug, PartialEq)]
pub enum Expression {
    /// Bracketed expression; evaluates to its contents.
    Brackets { expr: Box<Expression> },
    /// Raise to the power.
    Order { base: Box<Expression>, exponent: Box<Expression> },
    /// Division, truncating towards zero.
    Division { numerator: Box<Expression>, denominator: Box<Expression> },
    /// Multiplication.
    Multiplication { lhs: Box<Expression>, rhs: Box<Expression> },
    /// Addition.
    Addition { lhs: Box<Expression>, rhs: Box<Expression> },
    /// Subtraction.
    Subtraction { lhs: Box<Expression>, rhs: Box<Expression> },
    /// Raw integer (positive or negative).
    Value(i64),
}

/// `x` as an `i64`, when it fits.
pub open spec fn fit(x: int) -> Option<i64> {
    if i64::MIN <= x <= i64::MAX {
        Some(x as i64)
    } else {
        None
    }
}

/// Division rounding the quotient towards zero.
pub open spec fn truncating_div(a: int, b: int) -> int {
    let q = abs(a) / abs(b);
    if (a < 0) == (b < 0) {
        q
    } else {
        -q
    }
}

/// The value of an expression, or `None` where some step overflows, divides
/// by zero or raises to an exponent outside `0..=u32::MAX`.
pub open spec fn value_of(e: Expression) -> Option<i64>
    decreases e,
{
    match e {
        Expression::Value(v) => Some(v),
        Expression::Brackets { expr } => value_of(*expr),
        Expression::Addition { lhs, rhs } => match (value_of(*lhs), value_of(*rhs)) {
            (Some(a), Some(b)) => fit(a + b),
            _ => None,
        },
        Expression::Subtraction { lhs, rhs } => match (value_of(*lhs), value_of(*rhs)) {
            (Some(a), Some(b)) => fit(a - b),
            _ => None,
        },
        Expression::Multiplication { lhs, rhs } => match (value_of(*lhs), value_of(*rhs)) {
            (Some(a), Some(b)) => fit(a * b),
            _ => None,
        },
        Expression::Division { numerator, denominator } => match (
            value_of(*numerator),
            value_of(*denominator),
        ) {
            (Some(a), Some(b)) => if b == 0 {
                None
            } else {
                fit(truncating_div(a as int, b as int))
            },
            _ => None,
        },
        Expression::Order { base, exponent } => match (value_of(*base), value_of(*exponent)) {
            (Some(b), Some(x)) => if 0 <= x <= u32::MAX {
                pow_in_range(b as int, x as nat)
            } else {
                None
            },
            _ => None,
        },
    }
}

impl Clone for Expression {
    /// A copy of the whole tree.
    fn clone(&self) -> (r: Self)
        ensures
            r == *self,
        decreases self,
    {
        match self {
            Expression::Value(v) => Expression::Value(*v),
            Expression::Brackets { expr } => Expression::Brackets { expr: Box::new((**expr).clone()) },
            Expression::Order { base, exponent } => Expression::Order {
                base: Box::new((**base).clone()),
                exponent: Box::new((**exponent).clone()),
            },
            Expression::Division { numerator, denominator } => Expression::Division {
                numerator: Box::new((**numerator).clone()),
                denominator: Box::new((**denominator).clone()),
            },
            Expression::Multiplication { lhs, rhs } => Expression::Multiplication {
                lhs: Box::new((**lhs).clone()),
                rhs: Box::new((**rhs).clone()),
            },
            Expression::Addition { lhs, rhs } => Expression::Addition {
                lhs: Box::new((**lhs).clone()),
                rhs: Box::new((**rhs).clone()),
            },
            Expression::Subtraction { lhs, rhs } => Expression::Subtraction {
                lhs: Box::new((**lhs).clone()),
                rhs: Box::new((**rhs).clone()),
            },
        }
    }
}

impl Expression {
    /// Evaluate an expression to get the result.
    ///
    /// Returns `None` if overflow occurred, on division by zero, or on an
    /// exponent that is negative or beyond `u32::MAX`.
    pub fn evaluate(&self) -> (r: Option<i64>)
        ensures
            r == value_of(*self),
        decreases self,
    {
        match self {
            Expression::Value(v) => Some(*v),
            Expression::Addition { lhs, rhs } => {
                let a = lhs.evaluate()?;
                let b = rhs.evaluate()?;
                a.checked_add(b)
            },
            Expression::Subtraction { lhs, rhs } => {
                let a = lhs.evaluate()?;
                let b = rhs.evaluate()?;
                a.checked_sub(b)
            },
            Expression::Multiplication { lhs, rhs } => {
                let a = lhs.evaluate()?;
                let b = rhs.evaluate()?;
                a.checked_mul(b)
            },
            Expression::Division { numerator, denominator } => {
                let a = numerator.evaluate()?;
                let b = denominator.evaluate()?;
                a.checked_div(b)
            },
            Expression::Order { base, exponent } => {
                let x = exponent.evaluate()?;
                if x < 0 || x > u32::MAX as i64 {
                    return None;
                }
                let b = base.evaluate()?;
                CheckedPow::checked_pow(b, x as u32)
            },
            Expression::Brackets { expr } => expr.evaluate(),
        }
    }
}


/// A binary operator.
#[derive(Clone, Copy, Debug, PartialEq, Eq)]
pub enum Operator {
    Pow,
    Div,
    Mul,
    Add,
    Sub,
}

/// The character that writes an operator.
pub open spec fn operator_char(op: Operator) -> char {
    match op {
        Operator::Pow => '^',
        Operator::Div => '/',
        Operator::Mul => '*',
        Operator::Add => '+',
        Operator::Sub => '-',
    }
}

impl Operator {
    /// The character that writes this operator.
    pub fn symbol(&self) -> (r: char)
        ensures
            r == operator_char(*self),
    {
        match self {
            Operator::Pow => '^',
            Operator::Div => '/',
            Operator::Mul => '*',
            Operator::Add => '+',
            Operator::Sub => '-',
        }
    }
}

/// A lexical token of an expression.
#[derive(Clone, Copy, Debug, PartialEq, Eq)]
pub enum ExpressionToken {
    OpeningBracket,
    ClosingBracket,
    Operator(Operator),
    Value(i64),
}

/// Which numeral system writes the integer literals of an expression.
#[derive(Clone, Copy, Debug, PartialEq, Eq)]
pub enum NumeralSystem {
    /// Decimal digits `0` to `9`.
    Decimal,
    /// Roman numerals, upper case.
    Roman,
}

pub open spec fn is_digit(c: char) -> bool {
    '0' <= c <= '9'
}

/// The number written by the decimal digits `s`.
pub open spec fn digits_value(s: Seq<char>) -> int
    decreases s.len(),
{
    if s.len() == 0 {
        0
    } else {
        10 * digits_value(s.drop_last()) + (s.last() as int - '0' as int)
    }
}

pub open spec fn all_digits(s: Seq<char>) -> bool {
    forall|i: int| 0 <= i < s.len() ==> is_digit(#[trigger] s[i])
}

/// The integer written by `s`: an optional sign, then one or more decimal
/// digits, with a value that fits in an `i64`.
pub open spec fn integer_value(s: Seq<char>) -> Option<int> {
    let signed = s.len() > 0 && (s[0] == '-' || s[0] == '+');
    let digits = if signed {
        s.drop_first()
    } else {
        s
    };
    let v = if signed && s[0] == '-' {
        -digits_value(digits)
    } else {
        digits_value(digits)
    };
    if digits.len() > 0 && all_digits(digits) && i64::MIN <= v <= i64::MAX {
        Some(v)
    } else {
        None
    }
}

proof fn lemma_digits_nonneg(s: Seq<char>)
    requires
        all_digits(s),
    ensures
        digits_value(s) >= 0,
    decreases s.len(),
{
    if s.len() > 0 {
        assert(is_digit(s[s.len() - 1]));
        lemma_digits_nonneg(s.drop_last());
    }
}

/// More digits never give a smaller number.
proof fn lemma_digits_grow(s: Seq<char>, k: int)
    requires
        all_digits(s),
        0 <= k <= s.len(),
    ensures
        digits_value(s.take(k)) <= digits_value(s),
    decreases s.len(),
{
    if k < s.len() {
        assert(is_digit(s[s.len() - 1]));
        lemma_digits_nonneg(s.drop_last());
        lemma_digits_grow(s.drop_last(), k);
        assert(s.drop_last().take(k) == s.take(k));
    } else {
        assert(s.take(k) == s);
    }
}

/// The integer written by `chars`, read as `integer_value` says.
fn integer_of(chars: &Vec<char>) -> (r: Option<i64>)
    ensures
        match r {
            Some(v) => integer_value(chars@) == Some(v as int),
            None => integer_value(chars@) is None,
        },
{
    let ghost s = chars@;
    let n = chars.len();
    let signed = n > 0 && (chars[0] == '-' || chars[0] == '+');
    let negative = n > 0 && chars[0] == '-';
    let start: usize = if signed {
        1
    } else {
        0
    };
    let ghost digits = if signed {
        s.drop_first()
    } else {
        s
    };
    assert(digits == s.skip(start as int));
    if start == n {
        return None;
    }
    let limit: u64 = 0x8000_0000_0000_0000;
    let mut acc: u64 = 0;
    let mut i: usize = start;
    assert(digits.take(0) == Seq::<char>::empty());
    while i < n
        invariant
            s == chars@,
            n == s.len(),
            digits == s.skip(start as int),
            signed == (s.len() > 0 && (s[0] == '-' || s[0] == '+')),
            negative == (s.len() > 0 && s[0] == '-'),
            digits == if signed {
                s.drop_first()
            } else {
                s
            },
            start <= i <= n,
            acc <= limit,
            limit == 0x8000_0000_0000_0000,
            all_digits(digits.take(i - start)),
            acc == digits_value(digits.take(i - start)),
        decreases n - i,
    {
        let c = chars[i];
        if !('0' <= c && c <= '9') {
            assert(!is_digit(digits[i - start]));
            return None;
        }
        let d = (c as u32 - '0' as u32) as u64;
        assert(digits.take(i + 1 - start).drop_last() == digits.take(i - start));
        if acc > (limit - d) / 10 {
            proof {
                assert(all_digits(digits.take(i + 1 - start)));
                if all_digits(digits) {
                    lemma_digits_grow(digits, i + 1 - start);
                }
            }
            return None;
        }
        acc = acc * 10 + d;
        i = i + 1;
    }
    assert(digits.take(n - start) == digits);
    if negative {
        if acc == limit {
            Some(i64::MIN)
        } else {
            Some(-(acc as i64))
        }
    } else if acc > i64::MAX as u64 {
        None
    } else {
        Some(acc as i64)
    }
}

pub open spec fn invalid_number_message() -> Seq<char> {
    "Invalid number"@
}

/// Parse a decimal integer, with an optional sign.
pub fn parse_integer(expr: &str) -> (r: Result<i64, String>)
    ensures
        match r {
            Ok(v) => integer_value(expr@) == Some(v as int),
            Err(m) => integer_value(expr@) is None && m@ == invalid_number_message(),
        },
{
    match integer_of(&chars_of(expr)) {
        Some(v) => Ok(v),
        None => Err(String::from_str("Invalid number")),
    }
}


/// Whether `c` belongs to an integer literal of the system.
pub open spec fn literal_char(system: NumeralSystem, c: char) -> bool {
    match system {
        NumeralSystem::Decimal => is_digit(c),
        NumeralSystem::Roman => letter_value(c) is Some,
    }
}

/// The length of the run of literal characters that opens `s`.
pub open spec fn literal_run(s: Seq<char>, system: NumeralSystem) -> nat
    decreases s.len(),
{
    if s.len() > 0 && literal_char(system, s[0]) {
        1 + literal_run(s.drop_first(), system)
    } else {
        0
    }
}

pub proof fn lemma_literal_run_bound(s: Seq<char>, system: NumeralSystem)
    ensures
        literal_run(s, system) <= s.len(),
    decreases s.len(),
{
    if s.len() > 0 {
        lemma_literal_run_bound(s.drop_first(), system);
    }
}

/// The value of a literal, or the message of what is wrong with it.
pub open spec fn literal_value(system: NumeralSystem, s: Seq<char>) -> Result<int, Seq<char>> {
    match system {
        NumeralSystem::Decimal => match integer_value(s) {
            Some(v) => Ok(v),
            None => Err(invalid_number_message()),
        },
        NumeralSystem::Roman => numeral_result(s),
    }
}

/// Characters between tokens that are skipped.
pub open spec fn is_blank(c: char) -> bool {
    c == ' ' || c == '\t' || c == '\n' || c == '\r'
}

/// The token written by a single character, if any.
pub open spec fn symbol_token(c: char) -> Option<ExpressionToken> {
    match c {
        '(' => Some(ExpressionToken::OpeningBracket),
        ')' => Some(ExpressionToken::ClosingBracket),
        '^' => Some(ExpressionToken::Operator(Operator::Pow)),
        '*' => Some(ExpressionToken::Operator(Operator::Mul)),
        '/' => Some(ExpressionToken::Operator(Operator::Div)),
        '+' => Some(ExpressionToken::Operator(Operator::Add)),
        '-' => Some(ExpressionToken::Operator(Operator::Sub)),
        _ => None,
    }
}

pub open spec fn unexpected_character_message(c: char) -> Seq<char> {
    "Unexpected character '"@.push(c) + "'"@
}

/// Puts `t` in front of a successful result.
pub open spec fn prepend_tokens(
    t: Seq<ExpressionToken>,
    r: Result<Seq<ExpressionToken>, Seq<char>>,
) -> Result<Seq<ExpressionToken>, Seq<char>> {
    match r {
        Ok(u) => Ok(t + u),
        Err(e) => Err(e),
    }
}

/// The tokens of `s`, left to right: blanks are skipped, each of `( ) ^ * /
/// + -` is a token of its own, and a maximal run of literal characters is
/// one value. Any other character is an error.
pub open spec fn tokens_of(s: Seq<char>, system: NumeralSystem) -> Result<
    Seq<ExpressionToken>,
    Seq<char>,
>
    decreases s.len(),
{
    if s.len() == 0 {
        Ok(seq![])
    } else {
        let c = s[0];
        if is_blank(c) {
            tokens_of(s.drop_first(), system)
        } else if symbol_token(c) is Some {
            prepend_tokens(seq![symbol_token(c)->0], tokens_of(s.drop_first(), system))
        } else if literal_char(system, c) {
            let n = literal_run(s, system);
            proof {
                lemma_literal_run_bound(s, system);
            }
            match literal_value(system, s.take(n as int)) {
                Ok(v) => prepend_tokens(
                    seq![ExpressionToken::Value(v as i64)],
                    tokens_of(s.skip(n as int), system),
                ),
                Err(e) => Err(e),
            }
        } else {
            Err(unexpected_character_message(c))
        }
    }
}

/// Whether `c` belongs to an integer literal of the system.
pub fn is_literal_char(system: NumeralSystem, c: char) -> (r: bool)
    ensures
        r == literal_char(system, c),
{
    match system {
        NumeralSystem::Decimal => '0' <= c && c <= '9',
        NumeralSystem::Roman => match c {
            'I' | 'V' | 'X' | 'L' | 'C' | 'D' | 'M' => true,
            _ => false,
        },
    }
}

/// The value of the literal `run`.
fn parse_literal(system: NumeralSystem, run: &Vec<char>) -> (r: Result<i64, String>)
    requires
        run@.len() > 0,
        forall|i: int| 0 <= i < run@.len() ==> literal_char(system, #[trigger] run@[i]),
    ensures
        match r {
            Ok(v) => literal_value(system, run@) == Ok::<int, Seq<char>>(v as int) && v >= 0,
            Err(m) => literal_value(system, run@) == Err::<int, Seq<char>>(m@),
        },
{
    proof {
        if system == NumeralSystem::Decimal {
            assert(is_digit(run@[0]));
            assert(all_digits(run@));
            lemma_digits_nonneg(run@);
        }
    }
    match system {
        NumeralSystem::Decimal => match integer_of(run) {
            Some(v) => Ok(v),
            None => Err(String::from_str("Invalid number")),
        },
        NumeralSystem::Roman => match numeral_value_of(run) {
            Ok(v) => Ok(v as i64),
            Err(m) => Err(m),
        },
    }
}

/// Whether every value among the tokens is non-negative.
pub open spec fn unsigned_values(ts: Seq<ExpressionToken>) -> bool {
    forall|i: int| 0 <= i < ts.len() ==> (#[trigger] ts[i] matches ExpressionToken::Value(v) ==> v >= 0)
}

/// Convert an expression to tokens.
pub fn tokenise(expr: &str, system: NumeralSystem) -> (r: Result<Vec<ExpressionToken>, String>)
    ensures
        match r {
            Ok(t) => tokens_of(expr@, system) == Ok::<Seq<ExpressionToken>, Seq<char>>(t@)
                && unsigned_values(t@),
            Err(m) => tokens_of(expr@, system) == Err::<Seq<ExpressionToken>, Seq<char>>(m@),
        },
{
    let chars = chars_of(expr);
    let ghost s = chars@;
    let n = chars.len();
    let mut output: Vec<ExpressionToken> = Vec::new();
    let mut i: usize = 0;
    assert(s.skip(0) == s);
    assert(output@ + Seq::<ExpressionToken>::empty() == output@);
    while i < n
        invariant
            s == chars@,
            s == expr@,
            n == s.len(),
            i <= n,
            tokens_of(s, system) == prepend_tokens(output@, tokens_of(s.skip(i as int), system)),
            unsigned_values(output@),
        decreases n - i,
    {
        let ghost rest = s.skip(i as int);
        let ghost before = output@;
        let c = chars[i];
        assert(rest[0] == c);
        assert(rest.drop_first() == s.skip(i + 1));
        let symbol = match c {
            '(' => Some(ExpressionToken::OpeningBracket),
            ')' => Some(ExpressionToken::ClosingBracket),
            '^' => Some(ExpressionToken::Operator(Operator::Pow)),
            '*' => Some(ExpressionToken::Operator(Operator::Mul)),
            '/' => Some(ExpressionToken::Operator(Operator::Div)),
            '+' => Some(ExpressionToken::Operator(Operator::Add)),
            '-' => Some(ExpressionToken::Operator(Operator::Sub)),
            _ => None,
        };
        if c == ' ' || c == '\t' || c == '\n' || c == '\r' {
            i = i + 1;
        } else if let Some(t) = symbol {
            output.push(t);
            proof {
                match tokens_of(s.skip(i + 1), system) {
                    Ok(u) => {
                        assert(before + (seq![symbol_token(c)->0] + u) == output@ + u);
                    },
                    Err(_) => {},
                }
            }
            i = i + 1;
        } else if is_literal_char(system, c) {
            let mut run: Vec<char> = Vec::new();
            let mut j: usize = i;
            assert(s.subrange(i as int, i as int) == Seq::<char>::empty());
            while j < n && is_literal_char(system, chars[j])
                invariant
                    s == chars@,
                    n == s.len(),
                    i <= j <= n,
                    rest == s.skip(i as int),
                    run@ == s.subrange(i as int, j as int),
                    forall|k: int| 0 <= k < run@.len() ==> literal_char(system, #[trigger] run@[k]),
                    literal_run(rest, system) == (j - i) + literal_run(s.skip(j as int), system),
                decreases n - j,
            {
                assert(s.skip(j as int).drop_first() == s.skip(j + 1));
                run.push(chars[j]);
                j = j + 1;
                assert(run@ == s.subrange(i as int, j as int));
            }
            assert(literal_run(s.skip(j as int), system) == 0);
            assert(rest.take(j - i) == run@);
            assert(rest.skip(j - i) == s.skip(j as int));
            let v = match parse_literal(system, &run) {
                Ok(v) => v,
                Err(m) => return Err(m),
            };
            output.push(ExpressionToken::Value(v));
            proof {
                match tokens_of(s.skip(j as int), system) {
                    Ok(u) => {
                        assert(before + (seq![ExpressionToken::Value(v)] + u) == output@ + u);
                    },
                    Err(_) => {},
                }
            }
            i = j;
        } else {
            return Err(quoted("Unexpected character '", c, "'"));
        }
    }
    assert(output@ + Seq::<ExpressionToken>::empty() == output@);
    Ok(output)
}


/// Precedence level of an operator: 0 binds tightest.
pub open spec fn level(op: Operator) -> nat {
    match op {
        Operator::Pow => 0,
        Operator::Div | Operator::Mul => 1,
        Operator::Add | Operator::Sub => 2,
    }
}

/// The index of the last operator of level `lv` in `items`, or -1.
pub open spec fn last_of_level(items: Seq<(Expression, Operator)>, lv: nat) -> int
    decreases items.len(),
{
    if items.len() == 0 {
        -1
    } else if level(items.last().1) == lv {
        items.len() - 1
    } else {
        last_of_level(items.drop_last(), lv)
    }
}

pub proof fn lemma_last_of_level_bound(items: Seq<(Expression, Operator)>, lv: nat)
    ensures
        -1 <= last_of_level(items, lv) < items.len(),
    decreases items.len(),
{
    if items.len() > 0 {
        lemma_last_of_level_bound(items.drop_last(), lv);
    }
}

/// Where a chain of terms is split at its root operator: the last `+` or
/// `-` (they associate to the left), else the last `*` or `/` (likewise),
/// else the first `^` (it associates to the right).
pub open spec fn split_point(items: Seq<(Expression, Operator)>) -> int {
    if last_of_level(items, 2) >= 0 {
        last_of_level(items, 2)
    } else if last_of_level(items, 1) >= 0 {
        last_of_level(items, 1)
    } else {
        0
    }
}

/// The node that applies `op` to `l` and `r`.
pub open spec fn combine(op: Operator, l: Expression, r: Expression) -> Expression {
    match op {
        Operator::Pow => Expression::Order { base: Box::new(l), exponent: Box::new(r) },
        Operator::Div => Expression::Division { numerator: Box::new(l), denominator: Box::new(r) },
        Operator::Mul => Expression::Multiplication { lhs: Box::new(l), rhs: Box::new(r) },
        Operator::Add => Expression::Addition { lhs: Box::new(l), rhs: Box::new(r) },
        Operator::Sub => Expression::Subtraction { lhs: Box::new(l), rhs: Box::new(r) },
    }
}

/// The tree of the chain `t0 op0 t1 op1 ... last`, where `items` holds the
/// pairs `(t_i, op_i)`, built by BODMAS precedence and associativity.
pub open spec fn reduce(items: Seq<(Expression, Operator)>, last: Expression) -> Expression
    decreases items.len(),
{
    if items.len() == 0 {
        last
    } else {
        let k = split_point(items);
        proof {
            lemma_last_of_level_bound(items, 2);
            lemma_last_of_level_bound(items, 1);
        }
        combine(items[k].1, reduce(items.take(k), items[k].0), reduce(items.skip(k + 1), last))
    }
}

fn level_of(op: Operator) -> (r: u8)
    ensures
        r == level(op),
{
    match op {
        Operator::Pow => 0,
        Operator::Div | Operator::Mul => 1,
        Operator::Add | Operator::Sub => 2,
    }
}

fn find_last_of_level(items: &Vec<(Expression, Operator)>, lv: u8) -> (r: Option<usize>)
    ensures
        match r {
            Some(k) => last_of_level(items@, lv as nat) == k,
            None => last_of_level(items@, lv as nat) == -1,
        },
{
    let mut i = items.len();
    assert(items@.take(i as int) == items@);
    while i > 0
        invariant
            i <= items@.len(),
            last_of_level(items@, lv as nat) == last_of_level(items@.take(i as int), lv as nat),
        decreases i,
    {
        assert(items@.take(i as int).last() == items@[i - 1]);
        if level_of(items[i - 1].1) == lv {
            return Some(i - 1);
        }
        assert(items@.take(i as int).drop_last() == items@.take(i - 1));
        i = i - 1;
    }
    None
}

fn make_node(op: Operator, l: Expression, r: Expression) -> (e: Expression)
    ensures
        e == combine(op, l, r),
{
    match op {
        Operator::Pow => Expression::Order { base: Box::new(l), exponent: Box::new(r) },
        Operator::Div => Expression::Division { numerator: Box::new(l), denominator: Box::new(r) },
        Operator::Mul => Expression::Multiplication { lhs: Box::new(l), rhs: Box::new(r) },
        Operator::Add => Expression::Addition { lhs: Box::new(l), rhs: Box::new(r) },
        Operator::Sub => Expression::Subtraction { lhs: Box::new(l), rhs: Box::new(r) },
    }
}

/// BODMAS reduction of a chain of terms and operators.
fn reduce_stack(previous_terms: Vec<(Expression, Operator)>, last: Expression) -> (r: Expression)
    ensures
        r == reduce(previous_terms@, last),
    decreases previous_terms@.len(),
{
    let ghost items = previous_terms@;
    let mut left = previous_terms;
    if left.len() == 0 {
        return last;
    }
    let k = match find_last_of_level(&left, 2) {
        Some(k) => k,
        None => match find_last_of_level(&left, 1) {
            Some(k) => k,
            None => 0,
        },
    };
    proof {
        lemma_last_of_level_bound(items, 2);
        lemma_last_of_level_bound(items, 1);
    }
    assert(k == split_point(items));
    let mut right = left.split_off(k);
    let (t, op) = right.remove(0);
    assert(left@ == items.take(k as int));
    assert(right@ == items.skip(k + 1));
    let l = reduce_stack(left, t);
    let r = reduce_stack(right, last);
    make_node(op, l, r)
}


/// What the parser holds between two tokens.
pub struct ParserView {
    /// Sign read before the next value, if any.
    pub sign: Option<i64>,
    /// The chains of the enclosing bracket levels, outermost first.
    pub outer: Seq<Seq<(Expression, Operator)>>,
    /// Terms of the current level, each with the operator after it.
    pub terms: Seq<(Expression, Operator)>,
    /// The last term read, not yet followed by an operator.
    pub term: Option<Expression>,
}

pub open spec fn initial_view() -> ParserView {
    ParserView { sign: None, outer: seq![], terms: seq![], term: None }
}

/// `v` with the pending sign applied.
pub open spec fn signed_value(v: i64, sign: Option<i64>) -> i64 {
    if sign matches Some(s) && s < 0 {
        (-v) as i64
    } else {
        v
    }
}

pub open spec fn after_value(st: ParserView, v: i64) -> Result<ParserView, Seq<char>> {
    if st.term is Some {
        Err("Expected operator before value"@)
    } else {
        Ok(
            ParserView {
                sign: None,
                outer: st.outer,
                terms: st.terms,
                term: Some(Expression::Value(signed_value(v, st.sign))),
            },
        )
    }
}

pub open spec fn unexpected_operator_message(op: Operator) -> Seq<char> {
    "Unexpected operator '"@.push(operator_char(op)) + "'"@
}

pub open spec fn after_operator(st: ParserView, op: Operator) -> Result<ParserView, Seq<char>> {
    if st.term is Some {
        Ok(
            ParserView {
                sign: st.sign,
                outer: st.outer,
                terms: st.terms.push((st.term->0, op)),
                term: None,
            },
        )
    } else if st.sign is None && op == Operator::Add {
        Ok(ParserView { sign: Some(1i64), outer: st.outer, terms: st.terms, term: None })
    } else if st.sign is None && op == Operator::Sub {
        Ok(ParserView { sign: Some(-1i64), outer: st.outer, terms: st.terms, term: None })
    } else {
        Err(unexpected_operator_message(op))
    }
}

/// An opening bracket right after a term multiplies it.
pub open spec fn after_opening(st: ParserView) -> Result<ParserView, Seq<char>> {
    if st.sign is Some {
        Err("Cannot have bracket after sign"@)
    } else {
        let terms = if st.term is Some {
            st.terms.push((st.term->0, Operator::Mul))
        } else {
            st.terms
        };
        Ok(ParserView { sign: None, outer: st.outer.push(terms), terms: seq![], term: None })
    }
}

pub open spec fn after_closing(st: ParserView) -> Result<ParserView, Seq<char>> {
    if st.term is None || st.sign is Some {
        Err("Unexpected closing bracket"@)
    } else if st.outer.len() == 0 {
        Err("Closing bracket without opening bracket"@)
    } else {
        Ok(
            ParserView {
                sign: None,
                outer: st.outer.drop_last(),
                terms: st.outer.last(),
                term: Some(Expression::Brackets { expr: Box::new(reduce(st.terms, st.term->0)) }),
            },
        )
    }
}

pub open spec fn after_token(st: ParserView, t: ExpressionToken) -> Result<ParserView, Seq<char>> {
    match t {
        ExpressionToken::OpeningBracket => after_opening(st),
        ExpressionToken::ClosingBracket => after_closing(st),
        ExpressionToken::Operator(op) => after_operator(st, op),
        ExpressionToken::Value(v) => after_value(st, v),
    }
}

pub open spec fn unfinished_operator_message(op: Operator) -> Seq<char> {
    "Unfinished operator: "@.push(operator_char(op))
}

/// The expression once every token has been read.
pub open spec fn finished(st: ParserView) -> Result<Expression, Seq<char>> {
    if st.outer.len() > 0 {
        Err("Unmatched opening bracket"@)
    } else if st.sign is Some {
        Err("Expected value for sign at end of input"@)
    } else {
        match st.term {
            Some(t) => Ok(reduce(st.terms, t)),
            None => if st.terms.len() > 0 {
                Err(unfinished_operator_message(st.terms.last().1))
            } else {
                Err("Empty input"@)
            },
        }
    }
}

/// Reads the tokens `ts` from the state `st`, then finishes.
pub open spec fn run_tokens(st: ParserView, ts: Seq<ExpressionToken>) -> Result<Expression, Seq<char>>
    decreases ts.len(),
{
    if ts.len() == 0 {
        finished(st)
    } else {
        match after_token(st, ts[0]) {
            Ok(next) => run_tokens(next, ts.drop_first()),
            Err(e) => Err(e),
        }
    }
}

/// The expression written by `s`, or the message of the first fault in it.
pub open spec fn parse_result(s: Seq<char>, system: NumeralSystem) -> Result<Expression, Seq<char>> {
    match tokens_of(s, system) {
        Ok(ts) => run_tokens(initial_view(), ts),
        Err(e) => Err(e),
    }
}

/// Helper struct to deal with the parsing of the expressions.
struct ParserState {
    sign: Option<i64>,
    outer_stacks: Vec<Vec<(Expression, Operator)>>,
    previous_terms: Vec<(Expression, Operator)>,
    term: Option<Expression>,
}

impl ParserState {
    spec fn view(&self) -> ParserView {
        ParserView {
            sign: self.sign,
            outer: self.outer_stacks@.map_values(|v: Vec<(Expression, Operator)>| v@),
            terms: self.previous_terms@,
            term: self.term,
        }
    }

    fn new() -> (r: Self)
        ensures
            r.view() == initial_view(),
    {
        let r = ParserState {
            sign: None,
            outer_stacks: Vec::new(),
            previous_terms: Vec::new(),
            term: None,
        };
        assert(r.view().outer == Seq::<Seq<(Expression, Operator)>>::empty());
        r
    }

    fn push_value(&mut self, v: i64) -> (r: Result<(), String>)
        requires
            v >= 0,
        ensures
            match after_value(old(self).view(), v) {
                Ok(st) => r is Ok && final(self).view() == st,
                Err(m) => r is Err && r->Err_0@ == m && final(self).view() == old(self).view(),
            },
    {
        if self.term.is_some() {
            return Err(String::from_str("Expected operator before value"));
        }
        let value = match self.sign.take() {
            Some(s) => if s < 0 {
                -v
            } else {
                v
            },
            None => v,
        };
        self.term = Some(Expression::Value(value));
        Ok(())
    }

    fn push_operator(&mut self, op: Operator) -> (r: Result<(), String>)
        ensures
            match after_operator(old(self).view(), op) {
                Ok(st) => r is Ok && final(self).view() == st,
                Err(m) => r is Err && r->Err_0@ == m && final(self).view() == old(self).view(),
            },
    {
        match self.term.take() {
            Some(expr) => {
                self.previous_terms.push((expr, op));
                Ok(())
            },
            None => {
                if self.sign.is_none() {
                    match op {
                        Operator::Add => {
                            self.sign = Some(1);
                            return Ok(());
                        },
                        Operator::Sub => {
                            self.sign = Some(-1);
                            return Ok(());
                        },
                        _ => {},
                    }
                }
                Err(quoted("Unexpected operator '", op.symbol(), "'"))
            },
        }
    }

    fn open_bracket(&mut self) -> (r: Result<(), String>)
        ensures
            match after_opening(old(self).view()) {
                Ok(st) => r is Ok && final(self).view() == st,
                Err(m) => r is Err && r->Err_0@ == m && final(self).view() == old(self).view(),
            },
    {
        if self.sign.is_some() {
            return Err(String::from_str("Cannot have bracket after sign"));
        }
        if let Some(expr) = self.term.take() {
            self.previous_terms.push((expr, Operator::Mul));
        }
        let ghost before = self.outer_stacks@;
        let mut current_stack = Vec::new();
        std::mem::swap(&mut current_stack, &mut self.previous_terms);
        let ghost pushed = current_stack@;
        self.outer_stacks.push(current_stack);
        assert(self.outer_stacks@.map_values(|v: Vec<(Expression, Operator)>| v@) == before.map_values(
            |v: Vec<(Expression, Operator)>| v@,
        ).push(pushed));
        Ok(())
    }

    fn close_bracket(&mut self) -> (r: Result<(), String>)
        ensures
            match after_closing(old(self).view()) {
                Ok(st) => r is Ok && final(self).view() == st,
                Err(m) => r is Err && r->Err_0@ == m && final(self).view() == old(self).view(),
            },
    {
        if self.term.is_none() || self.sign.is_some() {
            return Err(String::from_str("Unexpected closing bracket"));
        }
        let ghost before = self.outer_stacks@;
        let mut last_stack = match self.outer_stacks.pop() {
            Some(stack) => stack,
            None => {
                return Err(String::from_str("Closing bracket without opening bracket"));
            },
        };
        assert(self.outer_stacks@.map_values(|v: Vec<(Expression, Operator)>| v@) == before.map_values(
            |v: Vec<(Expression, Operator)>| v@,
        ).drop_last());
        std::mem::swap(&mut self.previous_terms, &mut last_stack);
        match self.term.take() {
            Some(t) => {
                self.term = Some(
                    Expression::Brackets { expr: Box::new(reduce_stack(last_stack, t)) },
                );
            },
            None => {},
        }
        Ok(())
    }

    fn finish(self) -> (r: Result<Expression, String>)
        ensures
            match finished(self.view()) {
                Ok(e) => r == Ok::<Expression, String>(e),
                Err(m) => r is Err && r->Err_0@ == m,
            },
    {
        let ParserState { sign, outer_stacks, previous_terms, term } = self;
        if outer_stacks.len() > 0 {
            return Err(String::from_str("Unmatched opening bracket"));
        }
        if sign.is_some() {
            return Err(String::from_str("Expected value for sign at end of input"));
        }
        match term {
            Some(t) => Ok(reduce_stack(previous_terms, t)),
            None => {
                let n = previous_terms.len();
                if n > 0 {
                    let mut m = String::from_str("Unfinished operator: ");
                    push_char(&mut m, previous_terms[n - 1].1.symbol());
                    Err(m)
                } else {
                    Err(String::from_str("Empty input"))
                }
            },
        }
    }
}


impl Expression {
    /// Parse an expression from a string containing decimal integers.
    pub fn parse(expr: &str) -> (r: Result<Self, String>)
        ensures
            match parse_result(expr@, NumeralSystem::Decimal) {
                Ok(e) => r == Ok::<Expression, String>(e),
                Err(m) => r is Err && r->Err_0@ == m,
            },
    {
        Expression::parse_impl(expr, NumeralSystem::Decimal)
    }

    /// Parse an expression from a string containing roman numerals.
    pub fn parse_roman(expr: &str) -> (r: Result<Self, String>)
        ensures
            match parse_result(expr@, NumeralSystem::Roman) {
                Ok(e) => r == Ok::<Expression, String>(e),
                Err(m) => r is Err && r->Err_0@ == m,
            },
    {
        Expression::parse_impl(expr, NumeralSystem::Roman)
    }

    /// Parse an expression whose literals are written in `system`.
    pub fn parse_impl(expr: &str, system: NumeralSystem) -> (r: Result<Self, String>)
        ensures
            match parse_result(expr@, system) {
                Ok(e) => r == Ok::<Expression, String>(e),
                Err(m) => r is Err && r->Err_0@ == m,
            },
    {
        let tokens = match tokenise(expr, system) {
            Ok(t) => t,
            Err(m) => return Err(m),
        };
        let ghost ts = tokens@;
        let mut state = ParserState::new();
        let mut i: usize = 0;
        assert(ts.skip(0) == ts);
        while i < tokens.len()
            invariant
                ts == tokens@,
                unsigned_values(ts),
                i <= ts.len(),
                parse_result(expr@, system) == run_tokens(state.view(), ts.skip(i as int)),
            decreases ts.len() - i,
        {
            let token = tokens[i];
            assert(ts.skip(i as int)[0] == token);
            assert(ts.skip(i as int).drop_first() == ts.skip(i + 1));
            let step = match token {
                ExpressionToken::OpeningBracket => state.open_bracket(),
                ExpressionToken::ClosingBracket => state.close_bracket(),
                ExpressionToken::Operator(op) => state.push_operator(op),
                ExpressionToken::Value(v) => state.push_value(v),
            };
            if let Err(m) = step {
                return Err(m);
            }
            i = i + 1;
        }
        assert(ts.skip(i as int).len() == 0);
        state.finish()
    }
}

} // verus!
