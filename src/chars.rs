//! Character classes, encoding widths and conversions between `str` and
//! sequences of Unicode scalar values.
use vstd::prelude::*;
use vstd::std_specs::iter::IteratorSpec;

verus! {

broadcast use vstd::string::axiom_spec_iter, vstd::string::next_postcondition;

/// Space, tab, carriage return or line feed.
pub open spec fn is_space(c: char) -> bool {
    c == ' ' || c == '\t' || c == '\r' || c == '\n'
}

/// An ASCII hexadecimal digit of either case.
pub open spec fn is_hex(c: char) -> bool {
    ('0' <= c && c <= '9') || ('a' <= c && c <= 'f') || ('A' <= c && c <= 'F')
}

/// A scalar value outside the Basic Multilingual Plane.
pub open spec fn is_astral(c: char) -> bool {
    c as u32 >= 0x10000
}

/// A character that may stand inside a web address token.
pub open spec fn in_url(c: char) -> bool {
    !is_space(c) && c != '<' && c != '>' && c != '"'
}

/// A character that may stand inside the host part of a web address.
pub open spec fn in_host(c: char) -> bool {
    in_url(c) && c != '/' && c != '?' && c != '#'
}

/// Number of bytes of `c` in UTF-8.
pub open spec fn utf8_width(c: char) -> nat {
    if (c as u32) < 0x80 {
        1
    } else if (c as u32) < 0x800 {
        2
    } else if (c as u32) < 0x10000 {
        3
    } else {
        4
    }
}

/// Number of 16-bit code units of `c` in UTF-16.
pub open spec fn utf16_width(c: char) -> nat {
    if (c as u32) < 0x10000 {
        1
    } else {
        2
    }
}

/// Length in bytes of the UTF-8 encoding of `s`.
pub open spec fn utf8_size(s: Seq<char>) -> nat
    decreases s.len(),
{
    if s.len() == 0 {
        0
    } else {
        utf8_size(s.drop_last()) + utf8_width(s.last())
    }
}

/// Length in 16-bit code units of the UTF-16 encoding of `s`.
pub open spec fn utf16_size(s: Seq<char>) -> nat
    decreases s.len(),
{
    if s.len() == 0 {
        0
    } else {
        utf16_size(s.drop_last()) + utf16_width(s.last())
    }
}

pub fn space(c: char) -> (r: bool)
    ensures
        r == is_space(c),
{
    c == ' ' || c == '\t' || c == '\r' || c == '\n'
}

pub fn hex(c: char) -> (r: bool)
    ensures
        r == is_hex(c),
{
    ('0' <= c && c <= '9') || ('a' <= c && c <= 'f') || ('A' <= c && c <= 'F')
}

pub fn astral(c: char) -> (r: bool)
    ensures
        r == is_astral(c),
{
    c as u32 >= 0x10000
}

pub fn url_char(c: char) -> (r: bool)
    ensures
        r == in_url(c),
{
    !space(c) && c != '<' && c != '>' && c != '"'
}

pub fn host_char(c: char) -> (r: bool)
    ensures
        r == in_host(c),
{
    url_char(c) && c != '/' && c != '?' && c != '#'
}

/// Number of bytes that `c` takes in UTF-8.
pub fn utf8_len(c: char) -> (r: usize)
    ensures
        r == utf8_width(c),
{
    let v = c as u32;
    if v < 0x80 {
        1
    } else if v < 0x800 {
        2
    } else if v < 0x10000 {
        3
    } else {
        4
    }
}

/// Number of 16-bit code units that `c` takes in UTF-16.
pub fn utf16_len(c: char) -> (r: usize)
    ensures
        r == utf16_width(c),
{
    if (c as u32) < 0x10000 {
        1
    } else {
        2
    }
}

/// Relies on `Vec::len` and on std's guarantee that no allocation exceeds
/// `isize::MAX` bytes, so that a vector of 4-byte `char`s holds at most a
/// quarter of `usize::MAX` items.
#[verifier::external_body]
pub(crate) fn char_count(v: &Vec<char>) -> (r: usize)
    ensures
        r == v@.len(),
        r <= usize::MAX / 4,
{
    v.len()
}

/// Relies on `String::push`: appends one scalar value.
#[verifier::external_body]
pub(crate) fn push_char(s: &mut String, c: char)
    ensures
        final(s)@ == old(s)@.push(c),
{
    s.push(c)
}

/// The scalar values of `s`, in order.
pub fn to_chars(s: &str) -> (r: Vec<char>)
    ensures
        r@ == s@,
{
    let mut r: Vec<char> = Vec::new();
    let mut it = s.chars();
    loop
        invariant
            r@ + it.remaining() == s@,
            it.decrease() is Some,
        ensures
            r@ == s@,
        decreases it.decrease()->0,
    {
        match it.next() {
            Some(c) => {
                r.push(c);
            },
            None => {
                proof {
                    assert(r@ + it.remaining() =~= r@);
                }
                break ;
            },
        }
    }
    r
}

/// The string made of the scalar values of `v`, in order.
pub fn from_chars(v: &Vec<char>) -> (r: String)
    ensures
        r@ == v@,
{
    let mut r = String::new();
    let mut i: usize = 0;
    while i < v.len()
        invariant
            i <= v@.len(),
            r@ == v@.subrange(0, i as int),
        decreases v@.len() - i,
    {
        push_char(&mut r, v[i]);
        i = i + 1;
        proof {
            assert(r@ =~= v@.subrange(0, i as int));
        }
    }
    proof {
        assert(r@ =~= v@);
    }
    r
}

} // verus!
