//! Small helpers for building owned strings character by character.

use vstd::prelude::*;

verus! {

/// Relies on `String::push`: appends exactly the one character to the end of
/// the string.
#[verifier::external_body]
pub(crate) fn push_char(s: &mut String, c: char)
    ensures
        final(s)@ == old(s)@.push(c),
{
    s.push(c)
}

/// Append every character of a vector to a string.
pub(crate) fn push_chars(s: &mut String, v: &Vec<char>)
    ensures
        final(s)@ == old(s)@ + v@,
{
    let mut i: usize = 0;
    while i < v.len()
        invariant
            i <= v.len(),
            s@ == old(s)@ + v@.subrange(0, i as int),
        decreases v.len() - i,
    {
        push_char(s, v[i]);
        proof {
            assert(old(s)@ + v@.subrange(0, i + 1) =~= (old(s)@ + v@.subrange(0, i as int)).push(
                v@[i as int],
            ));
        }
        i = i + 1;
    }
    proof {
        assert(v@.subrange(0, v@.len() as int) =~= v@);
    }
}

/// The characters `v[a..b]`, as an owned string.
pub(crate) fn chars_to_string(v: &Vec<char>, a: usize, b: usize) -> (r: String)
    requires
        a <= b <= v@.len(),
    ensures
        r@ == v@.subrange(a as int, b as int),
{
    let mut s = String::new();
    let mut i: usize = a;
    while i < b
        invariant
            a <= i <= b <= v@.len(),
            s@ == v@.subrange(a as int, i as int),
        decreases b - i,
    {
        push_char(&mut s, v[i]);
        proof {
            assert(v@.subrange(a as int, i + 1) =~= v@.subrange(a as int, i as int).push(
                v@[i as int],
            ));
        }
        i = i + 1;
    }
    s
}

} // verus!
