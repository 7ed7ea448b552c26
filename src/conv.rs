//! Converting between integers and Roman numerals.
use crate::text::{chars_of, quoted};
use vstd::prelude::*;
use vstd::string::*;

verus! {

/// The value of a single numeral letter.
pub open spec fn letter_value(c: char) -> Option<nat> {
    match c {
        'I' => Some(1),
        'V' => Some(5),
        'X' => Some(10),
        'L' => Some(50),
        'C' => Some(100),
        'D' => Some(500),
        'M' => Some(1000),
        _ => None,
    }
}

/// The six pairs, such as `IV`, in which a letter is taken from the next one.
pub open spec fn subtractive(a: char, b: char) -> bool {
    ||| a == 'I' && b == 'V'
    ||| a == 'I' && b == 'X'
    ||| a == 'X' && b == 'L'
    ||| a == 'X' && b == 'C'
    ||| a == 'C' && b == 'D'
    ||| a == 'C' && b == 'M'
}

pub open spec fn empty_numeral_message() -> Seq<char> {
    "Empty numeral"@
}

pub open spec fn unknown_letter_message(c: char) -> Seq<char> {
    "Unexpected character '"@.push(c) + "'"@
}

pub open spec fn not_decreasing_message(c: char) -> Seq<char> {
    "Character '"@.push(c) + "' is not decreasing"@
}

pub open spec fn repetition_message(c: char) -> Seq<char> {
    "Repetition of '"@.push(c) + "' more than three times"@
}

/// How many copies of `s[0]` open `s`, counted up to four.
pub open spec fn leading_run(s: Seq<char>) -> nat {
    if s.len() >= 2 && s[1] == s[0] {
        if s.len() >= 3 && s[2] == s[0] {
            if s.len() >= 4 && s[3] == s[0] {
                4
            } else {
                3
            }
        } else {
            2
        }
    } else {
        1
    }
}

/// Adds `x` to a successful result.
pub open spec fn plus(x: int, r: Result<int, Seq<char>>) -> Result<int, Seq<char>> {
    match r {
        Ok(v) => Ok(x + v),
        Err(e) => Err(e),
    }
}

/// Reads `s` as a sequence of groups, left to right. A group is a run of at
/// most three equal letters, or a subtractive pair; its first letter must
/// be worth strictly less than the first letter of the group before it
/// (`bound`).
pub open spec fn scan_numeral(s: Seq<char>, bound: Option<nat>) -> Result<int, Seq<char>>
    decreases s.len(),
{
    if s.len() == 0 {
        Ok(0)
    } else {
        let c = s[0];
        match letter_value(c) {
            None => Err(unknown_letter_message(c)),
            Some(v) => {
                if bound is Some && v >= bound->0 {
                    Err(not_decreasing_message(c))
                } else {
                    let n = leading_run(s);
                    if n > 3 {
                        Err(repetition_message(c))
                    } else if n == 1 && s.len() >= 2 && subtractive(c, s[1]) {
                        plus(letter_value(s[1])->0 - v, scan_numeral(s.skip(2), Some(v)))
                    } else {
                        plus((v * n) as int, scan_numeral(s.skip(n as int), Some(v)))
                    }
                }
            },
        }
    }
}

/// The value of the numeral `s`, or the message of the first fault in it.
pub open spec fn numeral_result(s: Seq<char>) -> Result<int, Seq<char>> {
    if s.len() == 0 {
        Err(empty_numeral_message())
    } else {
        scan_numeral(s, None)
    }
}

/// Convert a single roman numeral character to a number.
pub fn character_value(c: char) -> (r: Result<u64, String>)
    ensures
        match r {
            Ok(v) => letter_value(c) == Some(v as nat),
            Err(m) => letter_value(c) is None && m@ == unknown_letter_message(c),
        },
{
    match c {
        'I' => Ok(1),
        'V' => Ok(5),
        'X' => Ok(10),
        'L' => Ok(50),
        'C' => Ok(100),
        'D' => Ok(500),
        'M' => Ok(1000),
        _ => Err(quoted("Unexpected character '", c, "'")),
    }
}

/// Whether `ab` is one of the pairs, such as `IV`, that are allowed.
pub fn is_subtractive_pair(a: char, b: char) -> (r: bool)
    ensures
        r == subtractive(a, b),
{
    match (a, b) {
        ('I', 'V') | ('I', 'X') | ('X', 'L') | ('X', 'C') | ('C', 'D') | ('C', 'M') => true,
        _ => false,
    }
}

/// Whether `v` is the value of some letter.
pub open spec fn is_letter_value(v: nat) -> bool {
    v == 1 || v == 5 || v == 10 || v == 50 || v == 100 || v == 500 || v == 1000
}

/// Convert an entire roman numeral string to a number.
pub fn numeral_value(numeral: &str) -> (r: Result<u64, String>)
    ensures
        match r {
            Ok(v) => numeral_result(numeral@) == Ok::<int, Seq<char>>(v as int),
            Err(m) => numeral_result(numeral@) == Err::<int, Seq<char>>(m@),
        },
{
    let chars = chars_of(numeral);
    numeral_value_of(&chars)
}

/// The value of the numeral spelt by `chars`.
pub(crate) fn numeral_value_of(chars: &Vec<char>) -> (r: Result<u64, String>)
    ensures
        match r {
            Ok(v) => numeral_result(chars@) == Ok::<int, Seq<char>>(v as int) && v <= 20000,
            Err(m) => numeral_result(chars@) == Err::<int, Seq<char>>(m@),
        },
{
    let n = chars.len();
    if n == 0 {
        return Err(String::from_str("Empty numeral"));
    }
    let ghost s = chars@;
    let mut value: u64 = 0;
    let mut last: Option<u64> = None;
    let mut i: usize = 0;
    assert(s.skip(0) == s);
    while i < n
        invariant
            n == s.len(),
            s == chars@,
            s.len() > 0,
            i <= n,
            numeral_result(s) == plus(value as int, scan_numeral(s.skip(i as int), match last {
                Some(l) => Some(l as nat),
                None => None,
            })),
            last is None ==> value == 0 && i == 0,
            last matches Some(l) ==> is_letter_value(l as nat) && value + 10 * l <= 20000,
        decreases n - i,
    {
        let ghost rest = s.skip(i as int);
        let c = chars[i];
        assert(rest[0] == c);
        let v = match character_value(c) {
            Ok(v) => v,
            Err(m) => return Err(m),
        };
        if let Some(l) = last {
            if v >= l {
                return Err(quoted("Character '", c, "' is not decreasing"));
            }
        }
        let mut run: usize = 1;
        while run < 4 && i + run < n && chars[i + run] == c
            invariant
                n == s.len(),
                s == chars@,
                rest == s.skip(i as int),
                i < n,
                rest[0] == c,
                1 <= run <= 4,
                i + run <= n,
                forall|k: int| 0 <= k < run ==> #[trigger] rest[k] == c,
            decreases 4 - run,
        {
            run = run + 1;
        }
        assert(run == leading_run(rest));
        if run > 3 {
            return Err(quoted("Repetition of '", c, "' more than three times"));
        }
        if run == 1 && i + 1 < n && is_subtractive_pair(c, chars[i + 1]) {
            let w = match character_value(chars[i + 1]) {
                Ok(w) => w,
                Err(m) => return Err(m),
            };
            assert(rest.skip(2) == s.skip(i + 2));
            value = value + (w - v);
            i = i + 2;
        } else {
            assert(rest.skip(run as int) == s.skip(i + run));
            value = value + v * (run as u64);
            i = i + run;
        }
        last = Some(v);
    }
    assert(s.skip(n as int).len() == 0);
    Ok(value)
}


/// The numeral for `v`, built greedily: the largest of the values 1000, 900,
/// 500, 400, 100, 90, 50, 40, 10, 9, 5, 4 and 1 that fits is written down
/// and taken off, until nothing remains.
pub open spec fn numeral_text(v: nat) -> Seq<char>
    decreases v,
{
    if v == 0 {
        seq![]
    } else if v >= 1000 {
        seq!['M'] + numeral_text((v - 1000) as nat)
    } else if v >= 900 {
        seq!['C', 'M'] + numeral_text((v - 900) as nat)
    } else if v >= 500 {
        seq!['D'] + numeral_text((v - 500) as nat)
    } else if v >= 400 {
        seq!['C', 'D'] + numeral_text((v - 400) as nat)
    } else if v >= 100 {
        seq!['C'] + numeral_text((v - 100) as nat)
    } else if v >= 90 {
        seq!['X', 'C'] + numeral_text((v - 90) as nat)
    } else if v >= 50 {
        seq!['L'] + numeral_text((v - 50) as nat)
    } else if v >= 40 {
        seq!['X', 'L'] + numeral_text((v - 40) as nat)
    } else if v >= 10 {
        seq!['X'] + numeral_text((v - 10) as nat)
    } else if v >= 9 {
        seq!['I', 'X'] + numeral_text((v - 9) as nat)
    } else if v >= 5 {
        seq!['V'] + numeral_text((v - 5) as nat)
    } else if v >= 4 {
        seq!['I', 'V'] + numeral_text((v - 4) as nat)
    } else {
        seq!['I'] + numeral_text((v - 1) as nat)
    }
}

/// The numerals that can be written: 1 to 3999.
pub open spec fn in_numeral_range(v: int) -> bool {
    1 <= v < 4000
}

/// Roman numeral for a given integer.
///
/// Returns `None` for zero and for values of 4000 and more, which have no
/// numeral here.
pub fn numeral(x: u64) -> (r: Option<String>)
    ensures
        match r {
            Some(s) => in_numeral_range(x as int) && s@ == numeral_text(x as nat),
            None => !in_numeral_range(x as int),
        },
{
    if x == 0 || x >= 4000 {
        return None;
    }
    let mut output = String::new();
    let mut remaining = x;
    while remaining > 0
        invariant
            remaining <= x,
            output@ + numeral_text(remaining as nat) == numeral_text(x as nat),
        decreases remaining,
    {
        let ghost before = output@;
        let (step, letters): (u64, &str) = if remaining >= 1000 {
            (1000, "M")
        } else if remaining >= 900 {
            (900, "CM")
        } else if remaining >= 500 {
            (500, "D")
        } else if remaining >= 400 {
            (400, "CD")
        } else if remaining >= 100 {
            (100, "C")
        } else if remaining >= 90 {
            (90, "XC")
        } else if remaining >= 50 {
            (50, "L")
        } else if remaining >= 40 {
            (40, "XL")
        } else if remaining >= 10 {
            (10, "X")
        } else if remaining >= 9 {
            (9, "IX")
        } else if remaining >= 5 {
            (5, "V")
        } else if remaining >= 4 {
            (4, "IV")
        } else {
            (1, "I")
        };
        proof {
            reveal_strlit("M");
            reveal_strlit("CM");
            reveal_strlit("D");
            reveal_strlit("CD");
            reveal_strlit("C");
            reveal_strlit("XC");
            reveal_strlit("L");
            reveal_strlit("XL");
            reveal_strlit("X");
            reveal_strlit("IX");
            reveal_strlit("V");
            reveal_strlit("IV");
            reveal_strlit("I");
            assert(numeral_text(remaining as nat) == letters@ + numeral_text(
                (remaining - step) as nat,
            ));
        }
        output.append(letters);
        remaining = remaining - step;
        assert(output@ + numeral_text(remaining as nat) == before + (letters@ + numeral_text(
            remaining as nat,
        )));
    }
    assert(output@ + numeral_text(0) == output@);
    Some(output)
}

/// The numeral for `x` with a leading `-` when `x` is negative.
pub open spec fn signed_numeral_text(x: int) -> Seq<char> {
    if x < 0 {
        seq!['-'] + numeral_text((-x) as nat)
    } else {
        numeral_text(x as nat)
    }
}

/// Roman numeral for a signed integer, with a leading `-` when negative.
///
/// Returns `None` for zero and where the magnitude is 4000 or more.
pub fn numeral_signed(x: i64) -> (r: Option<String>)
    ensures
        match r {
            Some(s) => x != 0 && -4000 < x < 4000 && s@ == signed_numeral_text(x as int),
            None => x == 0 || x <= -4000 || x >= 4000,
        },
{
    if x < 0 {
        if x <= -4000 {
            return None;
        }
        match numeral((-x) as u64) {
            Some(n) => {
                let mut s = String::from_str("-");
                s.append(n.as_str());
                proof {
                    reveal_strlit("-");
                }
                Some(s)
            },
            None => None,
        }
    } else if x > 0 {
        numeral(x as u64)
    } else {
        None
    }
}


/// The letter worth one unit of the scale `u` (1, 10, 100 or 1000).
pub open spec fn one_of(u: nat) -> char {
    if u == 1 {
        'I'
    } else if u == 10 {
        'X'
    } else if u == 100 {
        'C'
    } else {
        'M'
    }
}

/// The letter worth five units of the scale `u`.
pub open spec fn five_of(u: nat) -> char {
    if u == 1 {
        'V'
    } else if u == 10 {
        'L'
    } else {
        'D'
    }
}

/// The letter worth ten units of the scale `u`.
pub open spec fn ten_of(u: nat) -> char {
    if u == 1 {
        'X'
    } else if u == 10 {
        'C'
    } else {
        'M'
    }
}

pub open spec fn is_scale(u: nat) -> bool {
    u == 1 || u == 10 || u == 100 || u == 1000
}

/// A digit that the scale `u` can write: up to 9, and up to 3 thousands.
pub open spec fn digit_fits(d: nat, u: nat) -> bool {
    d <= 9 && (u == 1000 ==> d <= 3)
}

/// How the digit `d` is written at the scale `u`.
pub open spec fn digit_text(d: nat, u: nat) -> Seq<char> {
    let o = one_of(u);
    let f = five_of(u);
    let t = ten_of(u);
    if d == 0 {
        seq![]
    } else if d == 1 {
        seq![o]
    } else if d == 2 {
        seq![o, o]
    } else if d == 3 {
        seq![o, o, o]
    } else if d == 4 {
        seq![o, f]
    } else if d == 5 {
        seq![f]
    } else if d == 6 {
        seq![f, o]
    } else if d == 7 {
        seq![f, o, o]
    } else if d == 8 {
        seq![f, o, o, o]
    } else {
        seq![o, t]
    }
}

/// The greedy numeral of `d * u + r` writes the digit `d` first.
proof fn lemma_greedy_digit(d: nat, u: nat, r: nat)
    requires
        is_scale(u),
        digit_fits(d, u),
        r < u,
    ensures
        numeral_text(d * u + r) == digit_text(d, u) + numeral_text(r),
    decreases d,
{
    let v = d * u + r;
    let o = one_of(u);
    if d == 0 {
        assert(v == r) by (nonlinear_arith)
            requires
                d == 0,
                v == d * u + r,
        ;
        assert(digit_text(d, u) + numeral_text(r) =~= numeral_text(r));
    } else if d <= 3 {
        assert(u <= v < 4 * u && v - u == (d - 1) * u + r) by (nonlinear_arith)
            requires
                1 <= d <= 3,
                r < u,
                v == d * u + r,
        ;
        lemma_greedy_digit((d - 1) as nat, u, r);
        assert(numeral_text(v) == seq![o] + numeral_text((v - u) as nat));
        assert(digit_text(d, u) =~= seq![o] + digit_text((d - 1) as nat, u));
        assert(numeral_text(v) =~= digit_text(d, u) + numeral_text(r));
    } else if d == 4 {
        assert(4 * u <= v < 5 * u && v - 4 * u == r) by (nonlinear_arith)
            requires
                d == 4,
                r < u,
                v == d * u + r,
        ;
        assert(numeral_text(v) == seq![o, five_of(u)] + numeral_text(r));
    } else if d <= 8 {
        assert(5 * u <= v < 9 * u && v - 5 * u == (d - 5) * u + r) by (nonlinear_arith)
            requires
                5 <= d <= 8,
                r < u,
                v == d * u + r,
        ;
        lemma_greedy_digit((d - 5) as nat, u, r);
        assert(numeral_text(v) == seq![five_of(u)] + numeral_text((v - 5 * u) as nat));
        assert(digit_text(d, u) =~= seq![five_of(u)] + digit_text((d - 5) as nat, u));
        assert(numeral_text(v) =~= digit_text(d, u) + numeral_text(r));
    } else {
        assert(9 * u <= v < 10 * u && v - 9 * u == r) by (nonlinear_arith)
            requires
                d == 9,
                r < u,
                v == d * u + r,
        ;
        assert(numeral_text(v) == seq![o, ten_of(u)] + numeral_text(r));
    }
}

/// The four digit groups of `v`, thousands first.
pub open spec fn digit_groups(v: nat) -> Seq<char> {
    digit_text(v / 10 / 10 / 10, 1000) + digit_text(v / 10 / 10 % 10, 100) + digit_text(
        v / 10 % 10,
        10,
    ) + digit_text(v % 10, 1)
}

/// The greedy numeral of `v` is its four digit groups, thousands first.
pub proof fn lemma_greedy_is_digit_groups(v: nat)
    requires
        v < 4000,
    ensures
        numeral_text(v) == digit_groups(v),
{
    let m = v / 10 / 10 / 10;
    let h = v / 10 / 10 % 10;
    let t = v / 10 % 10;
    let d = v % 10;
    assert(v == m * 1000 + (h * 100 + (t * 10 + d)));
    lemma_greedy_digit(d, 1, 0);
    assert(numeral_text(0) == Seq::<char>::empty());
    assert(digit_text(d, 1) + Seq::<char>::empty() == digit_text(d, 1));
    lemma_greedy_digit(t, 10, d);
    lemma_greedy_digit(h, 100, t * 10 + d);
    lemma_greedy_digit(m, 1000, h * 100 + (t * 10 + d));
    assert(numeral_text(v) =~= digit_groups(v));
}


/// Whether `s` is empty or opens with a letter worth less than `u`.
pub open spec fn opens_below(s: Seq<char>, u: nat) -> bool {
    s.len() == 0 || (letter_value(s[0]) is Some && letter_value(s[0])->0 < u)
}

/// The value of the first letter of the digit `d` at the scale `u`.
pub open spec fn lead_value(d: nat, u: nat) -> nat {
    if 5 <= d <= 8 {
        5 * u
    } else {
        u
    }
}

/// The bound that reading the digit `d` at the scale `u` leaves behind.
pub open spec fn bound_after(d: nat, u: nat, bound: Option<nat>) -> Option<nat> {
    if d == 0 {
        bound
    } else if d == 5 {
        Some(5 * u)
    } else {
        Some(u)
    }
}

/// Reading the group of the digit `d` adds `d * u` and goes on with `rest`.
proof fn lemma_scan_digit(d: nat, u: nat, rest: Seq<char>, bound: Option<nat>)
    requires
        is_scale(u),
        digit_fits(d, u),
        opens_below(rest, u),
        bound matches Some(b) ==> b > lead_value(d, u),
    ensures
        scan_numeral(digit_text(d, u) + rest, bound) == plus(
            (d * u) as int,
            scan_numeral(rest, bound_after(d, u, bound)),
        ),
    decreases d,
{
    let s = digit_text(d, u) + rest;
    let o = one_of(u);
    let f = five_of(u);
    let t = ten_of(u);
    assert(letter_value(o) == Some(u));
    if d == 0 {
        assert(s =~= rest);
        assert(d * u == 0) by (nonlinear_arith)
            requires
                d == 0,
        ;
    } else if d <= 3 {
        assert(s.skip(d as int) =~= rest);
        assert(s[0] == o);
        assert(leading_run(s) == d);
        assert(!(d == 1 && s.len() >= 2 && subtractive(o, s[1])));
        assert(u * d == d * u) by (nonlinear_arith);
        assert(scan_numeral(s, bound) == plus((u * d) as int, scan_numeral(rest, Some(u))));
    } else if d == 4 {
        assert(s.skip(2) =~= rest);
        assert(s[0] == o && s[1] == f);
        assert(letter_value(f) == Some(5 * u));
        assert(leading_run(s) == 1);
        assert(subtractive(o, f));
        assert(scan_numeral(s, bound) == plus(5 * u - u, scan_numeral(rest, Some(u))));
    } else if d == 9 {
        assert(s.skip(2) =~= rest);
        assert(s[0] == o && s[1] == t);
        assert(letter_value(t) == Some(10 * u));
        assert(leading_run(s) == 1);
        assert(subtractive(o, t));
        assert(scan_numeral(s, bound) == plus(10 * u - u, scan_numeral(rest, Some(u))));
    } else {
        let inner = digit_text((d - 5) as nat, u) + rest;
        assert(s.skip(1) =~= inner);
        assert(s[0] == f);
        assert(letter_value(f) == Some(5 * u));
        assert(leading_run(s) == 1);
        assert(!subtractive(f, s[1]));
        assert(scan_numeral(s, bound) == plus((5 * u) as int, scan_numeral(inner, Some(5 * u))));
        lemma_scan_digit((d - 5) as nat, u, rest, Some(5 * u));
        assert(d * u == 5 * u + (d - 5) * u) by (nonlinear_arith);
    }
}

/// The group of a digit at the scale `u`, followed by what opens below
/// `u`, opens below the next scale.
proof fn lemma_group_opens_below(d: nat, u: nat, rest: Seq<char>)
    requires
        u == 1 || u == 10 || u == 100,
        d <= 9,
        opens_below(rest, u),
    ensures
        opens_below(digit_text(d, u) + rest, 10 * u),
{
    if d == 0 {
        assert(digit_text(d, u) + rest =~= rest);
    } else {
        assert((digit_text(d, u) + rest)[0] == digit_text(d, u)[0]);
    }
}

/// Every number from 1 to 3999 reads back from its numeral: the numeral
/// parses without error, to the number it was made from.
pub proof fn lemma_round_trip(v: nat)
    requires
        1 <= v < 4000,
    ensures
        numeral_result(numeral_text(v)) == Ok::<int, Seq<char>>(v as int),
{
    let m = v / 10 / 10 / 10;
    let h = v / 10 / 10 % 10;
    let t = v / 10 % 10;
    let d = v % 10;
    assert(v == m * 1000 + h * 100 + t * 10 + d && m <= 3);
    let empty = Seq::<char>::empty();
    let r3 = digit_text(d, 1) + empty;
    let r2 = digit_text(t, 10) + r3;
    let r1 = digit_text(h, 100) + r2;
    let whole = digit_text(m, 1000) + r1;
    assert(numeral_text(v) == whole) by {
        lemma_greedy_is_digit_groups(v);
        assert(digit_groups(v) =~= whole);
    }
    assert(opens_below(r1, 1000)) by {
        lemma_group_opens_below(d, 1, empty);
        lemma_group_opens_below(t, 10, r3);
        lemma_group_opens_below(h, 100, r2);
    }
    let b1 = bound_after(m, 1000, None);
    let b2 = bound_after(h, 100, b1);
    let b3 = bound_after(t, 10, b2);
    let b4 = bound_after(d, 1, b3);
    assert(scan_numeral(whole, None) == plus((m * 1000) as int, scan_numeral(r1, b1))) by {
        lemma_scan_digit(m, 1000, r1, None);
    }
    assert(scan_numeral(r1, b1) == plus((h * 100) as int, scan_numeral(r2, b2))) by {
        lemma_group_opens_below(d, 1, empty);
        lemma_group_opens_below(t, 10, r3);
        lemma_scan_digit(h, 100, r2, b1);
    }
    assert(scan_numeral(r2, b2) == plus((t * 10) as int, scan_numeral(r3, b3))) by {
        lemma_group_opens_below(d, 1, empty);
        lemma_scan_digit(t, 10, r3, b2);
    }
    assert(scan_numeral(r3, b3) == plus(d as int, scan_numeral(empty, b4))) by {
        lemma_scan_digit(d, 1, empty, b3);
    }
    assert(whole.len() > 0) by {
        if m == 0 && h == 0 && t == 0 {
            assert(r3.len() > 0);
        }
    }
}

} // verus!
