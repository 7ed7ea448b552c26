//! Small helpers for building and reading strings.
use vstd::prelude::*;
use vstd::string::*;

verus! {

/// Relies on std's `String::push`: appends one character to the string.
#[verifier::external_body]
pub(crate) fn push_char(s: &mut String, c: char)
    ensures
        final(s)@ == old(s)@.push(c),
{
    s.push(c)
}

/// The characters of `s`, in order.
pub fn chars_of(s: &str) -> (r: Vec<char>)
    ensures
        r@ == s@,
{
    let n = s.unicode_len();
    let mut out: Vec<char> = Vec::new();
    let mut i: usize = 0;
    while i < n
        invariant
            n == s@.len(),
            i <= n,
            out@ == s@.subrange(0, i as int),
        decreases n - i,
    {
        out.push(s.get_char(i));
        i = i + 1;
    }
    assert(out@ == s@);
    out
}

/// `prefix`, then `c`, then `suffix`.
pub fn quoted(prefix: &str, c: char, suffix: &str) -> (r: String)
    ensures
        r@ == prefix@.push(c) + suffix@,
{
    let mut s = String::from_str(prefix);
    push_char(&mut s, c);
    s.append(suffix);
    s
}

} // verus!
