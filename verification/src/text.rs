//! Character-level helpers for the token strings the engine consumes.
//!
//! All contracts are stated over `Seq<char>` views; the helpers keep the
//! executable code free of byte-level string surgery.

use vstd::prelude::*;

verus! {

use vstd::std_specs::iter::IteratorSpec;
use vstd::string::StringExecFns;

broadcast use vstd::string::next_postcondition;

/// The text of an optional string, as an optional character sequence.
pub open spec fn opt_text(o: Option<String>) -> Option<Seq<char>> {
    match o {
        Some(s) => Some(s@),
        None => None,
    }
}

/// True when `p` is a (not necessarily proper) prefix of `s`.
pub open spec fn is_prefix_of(p: Seq<char>, s: Seq<char>) -> bool {
    p.len() <= s.len() && p == s.subrange(0, p.len() as int)
}

/// Relies on String::push: appends exactly one character.
#[verifier::external_body]
pub fn push_char(s: &mut String, c: char)
    ensures
        final(s)@ == old(s)@.push(c),
{
    s.push(c);
}

/// The characters of `s`, in order.
pub fn chars_of(s: &str) -> (v: Vec<char>)
    ensures
        v@ == s@,
{
    let mut v: Vec<char> = Vec::new();
    let mut it = s.chars();
    loop
        invariant
            it.obeys_prophetic_iter_laws(),
            s@ == v@ + it.remaining(),
        ensures
            v@ == s@,
        decreases s@.len() - v@.len(),
    {
        let c = it.next();
        match c {
            Some(c) => {
                v.push(c);
                proof {
                    assert(s@ == v@ + it.remaining());
                }
            }
            None => {
                proof {
                    assert(v@ =~= s@);
                }
                break;
            }
        }
    }
    v
}

/// String equality, decided by the character sequences.
pub fn str_eq(a: &str, b: &str) -> (r: bool)
    ensures
        r == (a@ == b@),
{
    let av = a.to_owned();
    let bv = b.to_owned();
    av.eq(&bv)
}

/// Equality of optional strings, decided by the character sequences.
pub fn opt_str_eq(a: &Option<String>, b: &Option<String>) -> (r: bool)
    ensures
        r == (opt_text(*a) == opt_text(*b)),
{
    match (a, b) {
        (None, None) => true,
        (Some(x), Some(y)) => str_eq(x.as_str(), y.as_str()),
        _ => false,
    }
}

/// The first `n` characters of `s`.
pub fn prefix_of_chars(s: &str, n: usize) -> (p: String)
    requires
        n <= s@.len(),
    ensures
        p@ == s@.subrange(0, n as int),
{
    let v = chars_of(s);
    let mut p = String::new();
    let mut i: usize = 0;
    while i < n
        invariant
            0 <= i <= n <= v@.len(),
            v@ == s@,
            p@ == s@.subrange(0, i as int),
        decreases n - i,
    {
        push_char(&mut p, v[i]);
        i = i + 1;
        proof {
            assert(p@ =~= s@.subrange(0, i as int));
        }
    }
    p
}

/// The characters of `s` from position `n` on.
pub fn suffix_of_chars(s: &str, n: usize) -> (p: String)
    requires
        n <= s@.len(),
    ensures
        p@ == s@.subrange(n as int, s@.len() as int),
{
    let v = chars_of(s);
    let mut p = String::new();
    let mut i: usize = n;
    while i < v.len()
        invariant
            n <= i <= v@.len(),
            v@ == s@,
            p@ == s@.subrange(n as int, i as int),
        decreases v@.len() - i,
    {
        push_char(&mut p, v[i]);
        i = i + 1;
        proof {
            assert(p@ =~= s@.subrange(n as int, i as int));
        }
    }
    proof {
        assert(p@ =~= s@.subrange(n as int, s@.len() as int));
    }
    p
}

/// `s` with its characters in reverse order.
pub fn reverse_chars(s: &str) -> (p: String)
    ensures
        p@ == s@.reverse(),
{
    let v = chars_of(s);
    let mut p = String::new();
    let mut i: usize = v.len();
    while i > 0
        invariant
            0 <= i <= v@.len(),
            v@ == s@,
            p@ == s@.subrange(i as int, s@.len() as int).reverse(),
        decreases i,
    {
        i = i - 1;
        push_char(&mut p, v[i]);
        proof {
            assert(p@ =~= s@.subrange(i as int, s@.len() as int).reverse());
        }
    }
    proof {
        assert(p@ =~= s@.reverse());
    }
    p
}

/// Appends `b` to `a`.
pub fn append_str(a: &mut String, b: &str)
    ensures
        final(a)@ == old(a)@ + b@,
{
    a.append(b);
}

} // verus!
