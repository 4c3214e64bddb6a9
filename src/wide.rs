//! Text as the UTF-16 code units that the Windows speech and window APIs take.
use vstd::prelude::*;
use crate::chars::to_chars;

verus! {

/// The UTF-16 code units of `c`: one below U+10000, else a surrogate pair.
pub open spec fn utf16_units(c: char) -> Seq<u16> {
    let v = c as u32;
    if v < 0x10000 {
        seq![v as u16]
    } else {
        // Scalar values stop at U+10FFFF, so the high unit stays below 0xDC00.
        let w = (v - 0x10000) as u32;
        seq![
            #[verifier::truncate]
            ((0xD800u32 + w / 0x400) as u16),
            ((0xDC00u32 + w % 0x400) as u16),
        ]
    }
}

/// The UTF-16 encoding of `s`.
pub open spec fn utf16_encode(s: Seq<char>) -> Seq<u16>
    decreases s.len(),
{
    if s.len() == 0 {
        Seq::empty()
    } else {
        utf16_encode(s.drop_last()) + utf16_units(s.last())
    }
}

fn push_units(out: &mut Vec<u16>, c: char)
    ensures
        final(out)@ == old(out)@ + utf16_units(c),
{
    let v = c as u32;
    if v < 0x10000 {
        out.push(v as u16);
    } else {
        let w = v - 0x10000;
        let high = 0xD800u32 + w / 0x400;
        let low = 0xDC00u32 + w % 0x400;
        out.push(#[verifier::truncate] (high as u16));
        out.push(low as u16);
    }
    proof {
        assert(out@ =~= old(out)@ + utf16_units(c));
    }
}

fn encode(s: &str, terminated: bool) -> (r: Vec<u16>)
    ensures
        r@ == if terminated {
            utf16_encode(s@).push(0u16)
        } else {
            utf16_encode(s@)
        },
{
    let cs = to_chars(s);
    let mut r: Vec<u16> = Vec::new();
    let mut i: usize = 0;
    proof {
        assert(cs@.take(0) =~= Seq::<char>::empty());
    }
    while i < cs.len()
        invariant
            i <= cs@.len(),
            r@ == utf16_encode(cs@.take(i as int)),
        decreases cs@.len() - i,
    {
        push_units(&mut r, cs[i]);
        proof {
            assert(cs@.take(i + 1).drop_last() =~= cs@.take(i as int));
        }
        i = i + 1;
    }
    proof {
        assert(cs@.take(i as int) =~= s@);
    }
    if terminated {
        r.push(0u16);
    }
    r
}

/// Conversion to UTF-16 code units.
pub trait ToWide {
    /// The UTF-16 code units of the text.
    fn to_wide(&self) -> Vec<u16>;

    /// The UTF-16 code units of the text, then a zero.
    fn to_wide_null(&self) -> Vec<u16>;
}

impl ToWide for str {
    fn to_wide(&self) -> (r: Vec<u16>)
        ensures
            r@ == utf16_encode(self@),
    {
        encode(self, false)
    }

    fn to_wide_null(&self) -> (r: Vec<u16>)
        ensures
            r@ == utf16_encode(self@).push(0u16),
    {
        encode(self, true)
    }
}

} // verus!
