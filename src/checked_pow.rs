//! Exponentiation that reports overflow instead of wrapping.
use vstd::arithmetic::power::pow;
use vstd::prelude::*;

verus! {

/// `b` to the power `e`, when the result fits in an `i64`.
pub open spec fn pow_in_range(b: int, e: nat) -> Option<i64> {
    let p = pow(b, e);
    if i64::MIN <= p <= i64::MAX {
        Some(p as i64)
    } else {
        None
    }
}

/// Raising to a non-negative power, with overflow reported as `None`.
pub trait CheckedPow: Sized {
    /// What `checked_pow` returns.
    spec fn spec_checked_pow(self, exp: u32) -> Option<Self>;

    fn checked_pow(self, exp: u32) -> (r: Option<Self>)
        ensures
            r == self.spec_checked_pow(exp),
    ;
}

pub open spec fn abs(x: int) -> int {
    if x < 0 {
        -x
    } else {
        x
    }
}

proof fn lemma_pow_square(b: int, k: nat)
    ensures
        pow(b, 2 * k) == pow(b * b, k),
    decreases k,
{
    reveal(pow);
    if k > 0 {
        lemma_pow_square(b, (k - 1) as nat);
        let x = pow(b, (2 * k - 2) as nat);
        assert(pow(b, (2 * k - 1) as nat) == b * x);
        assert(b * (b * x) == (b * b) * x) by (nonlinear_arith);
    }
}

proof fn lemma_pow_at_least_two(b: int, e: nat)
    requires
        abs(b) >= 2,
        e >= 1,
    ensures
        abs(pow(b, e)) >= 2,
    decreases e,
{
    reveal(pow);
    if e > 1 {
        lemma_pow_at_least_two(b, (e - 1) as nat);
        let p = pow(b, (e - 1) as nat);
        assert(abs(b * p) >= 2) by (nonlinear_arith)
            requires
                abs(b) >= 2,
                abs(p) >= 2,
        ;
    } else {
        assert(pow(b, 0) == 1);
    }
}

proof fn lemma_pow_nonzero(b: int, e: nat)
    requires
        b != 0,
    ensures
        pow(b, e) != 0,
    decreases e,
{
    reveal(pow);
    if e > 0 {
        lemma_pow_nonzero(b, (e - 1) as nat);
        let p = pow(b, (e - 1) as nat);
        assert(b * p != 0) by (nonlinear_arith)
            requires
                b != 0,
                p != 0,
        ;
    }
}

/// An out-of-range product stays out of range when multiplied by a factor
/// of magnitude two or more.
proof fn lemma_overflow_grows(x: int, p: int)
    requires
        x > i64::MAX || x < i64::MIN,
        abs(p) >= 2,
    ensures
        x * p > i64::MAX || x * p < i64::MIN,
{
    assert(x * p > i64::MAX || x * p < i64::MIN) by (nonlinear_arith)
        requires
            x > 0x7fff_ffff_ffff_ffff || x < -0x8000_0000_0000_0000,
            p >= 2 || p <= -2,
    ;
}

/// A value of magnitude beyond 2^63 stays beyond it when multiplied by
/// any non-zero factor.
proof fn lemma_far_overflow_grows(x: int, p: int)
    requires
        x > 0x8000_0000_0000_0000 || x < -0x8000_0000_0000_0000,
        p != 0,
    ensures
        x * p > i64::MAX || x * p < i64::MIN,
{
    assert(x * p > 0x8000_0000_0000_0000 || x * p < -0x8000_0000_0000_0000) by (nonlinear_arith)
        requires
            x > 0x8000_0000_0000_0000 || x < -0x8000_0000_0000_0000,
            p >= 1 || p <= -1,
    ;
}

/// 2^63 is not a perfect square.
proof fn lemma_square_not_two_pow_63(b: int)
    ensures
        b * b != 0x8000_0000_0000_0000,
{
    if abs(b) <= 3037000499 {
        assert(b * b <= 3037000499 * 3037000499) by (nonlinear_arith)
            requires
                -3037000499 <= b <= 3037000499,
        ;
    } else {
        assert(b * b >= 3037000500 * 3037000500) by (nonlinear_arith)
            requires
                b >= 3037000500 || b <= -3037000500,
        ;
    }
}

impl CheckedPow for i64 {
    open spec fn spec_checked_pow(self, exp: u32) -> Option<i64> {
        pow_in_range(self as int, exp as nat)
    }

    /// Exponentiation by squaring, checking every multiplication.
    fn checked_pow(self, exp: u32) -> (r: Option<i64>) {
        let ghost b0 = self as int;
        let ghost e0 = exp as nat;
        let mut base = self;
        let mut acc: i64 = 1;
        let mut e = exp;
        proof {
            reveal(pow);
        }
        while e > 1
            invariant
                b0 == self as int,
                e0 == exp as nat,
                pow(b0, e0) == acc * pow(base as int, e as nat),
                abs(b0) <= 1 ==> abs(acc as int) <= 1 && abs(base as int) <= 1,
                abs(b0) >= 2 ==> abs(base as int) >= 2,
                b0 != 0 ==> acc != 0 && base != 0,
            decreases e,
        {
            let ghost half = (e / 2) as nat;
            if e % 2 == 1 {
                proof {
                    reveal(pow);
                    assert(pow(base as int, e as nat) == base * pow(base as int, (e - 1) as nat));
                    assert(acc * (base * pow(base as int, (e - 1) as nat)) == (acc * base) * pow(
                        base as int,
                        (e - 1) as nat,
                    )) by (nonlinear_arith);
                }
                match acc.checked_mul(base) {
                    Some(a) => {
                        proof {
                            if abs(b0) <= 1 {
                                assert(abs(a as int) <= 1) by (nonlinear_arith)
                                    requires
                                        abs(acc as int) <= 1,
                                        abs(base as int) <= 1,
                                        a == acc * base,
                                ;
                            }
                            if b0 != 0 {
                                assert(a != 0) by (nonlinear_arith)
                                    requires
                                        acc != 0,
                                        base != 0,
                                        a == acc * base,
                                ;
                            }
                        }
                        acc = a;
                    },
                    None => {
                        proof {
                            if abs(b0) <= 1 {
                                assert(abs(acc * base) <= 1) by (nonlinear_arith)
                                    requires
                                        abs(acc as int) <= 1,
                                        abs(base as int) <= 1,
                                ;
                            } else {
                                assert(abs(base as int) >= 2);
                                lemma_pow_at_least_two(base as int, (e - 1) as nat);
                                lemma_overflow_grows(acc * base, pow(base as int, (e - 1) as nat));
                                assert(pow(b0, e0) == (acc * base) * pow(base as int, (e - 1) as nat));
                            }
                        }
                        return None;
                    },
                }
                proof {
                    assert(e - 1 == 2 * half);
                    lemma_pow_square(base as int, half);
                }
            } else {
                proof {
                    assert(e == 2 * half);
                    lemma_pow_square(base as int, half);
                }
            }
            e = e / 2;
            match base.checked_mul(base) {
                Some(sq) => {
                    proof {
                        if abs(b0) >= 2 {
                            assert(sq >= 4) by (nonlinear_arith)
                                requires
                                    abs(base as int) >= 2,
                                    sq == base * base,
                            ;
                        }
                        if abs(b0) <= 1 {
                            assert(abs(sq as int) <= 1) by (nonlinear_arith)
                                requires
                                    abs(base as int) <= 1,
                                    sq == base * base,
                            ;
                        }
                        if b0 != 0 {
                            assert(sq != 0) by (nonlinear_arith)
                                requires
                                    base != 0,
                                    sq == base * base,
                            ;
                        }
                    }
                    base = sq;
                },
                None => {
                    proof {
                        assert(base * base >= 0) by (nonlinear_arith);
                        let s = base * base;
                        lemma_square_not_two_pow_63(base as int);
                        if abs(b0) <= 1 {
                            assert(abs(s) <= 1) by (nonlinear_arith)
                                requires
                                    abs(base as int) <= 1,
                                    s == base * base,
                            ;
                        }
                        assert(acc != 0);
                        let x = acc * s;
                        assert(x > 0x8000_0000_0000_0000 || x < -0x8000_0000_0000_0000)
                            by (nonlinear_arith)
                            requires
                                s > 0x8000_0000_0000_0000,
                                acc != 0,
                                x == acc * s,
                        ;
                        reveal(pow);
                        assert(pow(s, e as nat) == s * pow(s, (e - 1) as nat));
                        lemma_pow_nonzero(s, (e - 1) as nat);
                        assert(acc * (s * pow(s, (e - 1) as nat)) == x * pow(s, (e - 1) as nat))
                            by (nonlinear_arith)
                            requires
                                x == acc * s,
                        ;
                        lemma_far_overflow_grows(x, pow(s, (e - 1) as nat));
                    }
                    return None;
                },
            }
        }
        proof {
            reveal(pow);
        }
        if e == 1 {
            proof {
                assert(pow(base as int, 1) == base * pow(base as int, 0));
            }
            match acc.checked_mul(base) {
                Some(a) => {
                    acc = a;
                },
                None => {
                    proof {
                        reveal(pow);
                        assert(pow(base as int, 0) == 1);
                        assert(pow(b0, e0) == acc * base);
                        assert(acc * base > i64::MAX || acc * base < i64::MIN);
                        assert(pow_in_range(b0, e0) is None);
                                        assert(None::<i64> == self.spec_checked_pow(exp));
                                            }
                    return None;
                },
            }
        }
        Some(acc)
    }
}

} // verus!
