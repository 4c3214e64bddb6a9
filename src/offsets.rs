//! Segments and offset tables: the boundaries between the original and the
//! normalized text, as pairs of strings and as positions in bytes or in UTF-16
//! code units.
use vstd::prelude::*;
use crate::chars::{
    char_count, from_chars, to_chars, utf16_len, utf16_size, utf16_width, utf8_len, utf8_size,
    utf8_width,
};
use crate::cleaner::Cleaner;
use crate::engine::{boundaries, cuts_view, cuts_wf, normalize, pipeline_exec};

verus! {

/// The original text of each segment, joined in order.
pub open spec fn joined_inputs(r: Seq<(String, String)>) -> Seq<char>
    decreases r.len(),
{
    if r.len() == 0 {
        Seq::empty()
    } else {
        joined_inputs(r.drop_last()) + r.last().0@
    }
}

/// The normalized text of each segment, joined in order.
pub open spec fn joined_outputs(r: Seq<(String, String)>) -> Seq<char>
    decreases r.len(),
{
    if r.len() == 0 {
        Seq::empty()
    } else {
        joined_outputs(r.drop_last()) + r.last().1@
    }
}

fn sub_string(v: &Vec<char>, a: usize, b: usize) -> (r: String)
    requires
        a <= b <= v@.len(),
    ensures
        r@ == v@.subrange(a as int, b as int),
{
    let mut s: Vec<char> = Vec::new();
    let mut i = a;
    while i < b
        invariant
            a <= i <= b <= v@.len(),
            s@ == v@.subrange(a as int, i as int),
        decreases b - i,
    {
        s.push(v[i]);
        i = i + 1;
        proof {
            assert(s@ =~= v@.subrange(a as int, i as int));
        }
    }
    from_chars(&s)
}

/// The segments of `text`: pairs of a piece of the original text and what it
/// became, in order. The original pieces join to `text` itself, and the
/// normalized ones to the normalized text.
pub fn clean_iter(text: &str, list: &[Cleaner]) -> (r: Vec<(String, String)>)
    ensures
        r@.len() + 1 == boundaries(list@, text@).len(),
        forall|k: int|
            0 <= k < r@.len() ==> {
                let b = boundaries(list@, text@);
                &&& (#[trigger] r@[k]).0@ == text@.subrange(b[k].0, b[k + 1].0)
                &&& r@[k].1@ == normalize(list@, text@).subrange(b[k].1, b[k + 1].1)
            },
        joined_inputs(r@) == text@,
        joined_outputs(r@) == normalize(list@, text@),
{
    let t = to_chars(text);
    let (out, cuts) = pipeline_exec(list, &t);
    let ghost b = cuts_view(cuts@);
    let mut r: Vec<(String, String)> = Vec::new();
    let mut k: usize = 0;
    proof {
        assert(t@.subrange(0, 0) =~= Seq::<char>::empty());
        assert(out@.subrange(0, 0) =~= Seq::<char>::empty());
    }
    while k < cuts.len() - 1
        invariant
            b == cuts_view(cuts@),
            b == boundaries(list@, text@),
            t@ == text@,
            out@ == normalize(list@, text@),
            cuts_wf(b, t@.len() as int, out@.len() as int),
            k < b.len(),
            r@.len() == k,
            forall|i: int|
                0 <= i < r@.len() ==> {
                    &&& (#[trigger] r@[i]).0@ == text@.subrange(b[i].0, b[i + 1].0)
                    &&& r@[i].1@ == out@.subrange(b[i].1, b[i + 1].1)
                },
            joined_inputs(r@) == text@.subrange(0, b[k as int].0),
            joined_outputs(r@) == out@.subrange(0, b[k as int].1),
        decreases b.len() - k,
    {
        proof {
            assert(b[0].0 <= b[k as int].0 < b[k + 1].0 <= b.last().0) by {
                if k > 0 {
                    assert(b[0].0 < b[k as int].0);
                }
                if k + 2 < b.len() {
                    assert(b[k + 1].0 < b[b.len() - 1].0);
                }
            }
            assert(b[0].1 <= b[k as int].1 <= b[k + 1].1 <= b.last().1) by {
                if k > 0 {
                    assert(b[0].1 <= b[k as int].1);
                }
                if k + 2 < b.len() {
                    assert(b[k + 1].1 <= b[b.len() - 1].1);
                }
            }
        }
        let input = sub_string(&t, cuts[k].0, cuts[k + 1].0);
        let output = sub_string(&out, cuts[k].1, cuts[k + 1].1);
        let ghost before = r@;
        r.push((input, output));
        proof {
            assert(r@.drop_last() =~= before);
            assert(text@.subrange(0, b[k + 1].0) =~= text@.subrange(0, b[k as int].0)
                + text@.subrange(b[k as int].0, b[k + 1].0));
            assert(out@.subrange(0, b[k + 1].1) =~= out@.subrange(0, b[k as int].1)
                + out@.subrange(b[k as int].1, b[k + 1].1));
        }
        k = k + 1;
    }
    proof {
        assert(text@.subrange(0, text@.len() as int) =~= text@);
        assert(out@.subrange(0, out@.len() as int) =~= out@);
    }
    r
}

} // verus!

verus! {

proof fn lemma_take_step(v: Seq<char>, i: int)
    requires
        0 <= i < v.len(),
    ensures
        utf8_size(v.take(i + 1)) == utf8_size(v.take(i)) + utf8_width(v[i]),
        utf16_size(v.take(i + 1)) == utf16_size(v.take(i)) + utf16_width(v[i]),
{
    assert(v.take(i + 1).drop_last() =~= v.take(i));
}

/// Bytes of UTF-8 before each position of `v`, from 0 to its length.
fn utf8_prefixes(v: &Vec<char>) -> (r: Vec<usize>)
    ensures
        r@.len() == v@.len() + 1,
        forall|k: int| 0 <= k <= v@.len() ==> #[trigger] r@[k] == utf8_size(v@.take(k)),
{
    let n = char_count(v);
    let mut r: Vec<usize> = vec![0];
    let mut acc: usize = 0;
    let mut i: usize = 0;
    proof {
        assert(v@.take(0) =~= Seq::<char>::empty());
    }
    while i < n
        invariant
            n == v@.len(),
            n <= usize::MAX / 4,
            i <= n,
            acc <= 4 * i,
            acc == utf8_size(v@.take(i as int)),
            r@.len() == i + 1,
            forall|k: int| 0 <= k <= i ==> #[trigger] r@[k] == utf8_size(v@.take(k)),
        decreases n - i,
    {
        proof {
            lemma_take_step(v@, i as int);
        }
        acc = acc + utf8_len(v[i]);
        i = i + 1;
        r.push(acc);
    }
    r
}

/// UTF-16 code units before each position of `v`, from 0 to its length.
fn utf16_prefixes(v: &Vec<char>) -> (r: Vec<usize>)
    ensures
        r@.len() == v@.len() + 1,
        forall|k: int| 0 <= k <= v@.len() ==> #[trigger] r@[k] == utf16_size(v@.take(k)),
{
    let n = char_count(v);
    let mut r: Vec<usize> = vec![0];
    let mut acc: usize = 0;
    let mut i: usize = 0;
    proof {
        assert(v@.take(0) =~= Seq::<char>::empty());
    }
    while i < n
        invariant
            n == v@.len(),
            n <= usize::MAX / 4,
            i <= n,
            acc <= 2 * i,
            acc == utf16_size(v@.take(i as int)),
            r@.len() == i + 1,
            forall|k: int| 0 <= k <= i ==> #[trigger] r@[k] == utf16_size(v@.take(k)),
        decreases n - i,
    {
        proof {
            lemma_take_step(v@, i as int);
        }
        acc = acc + utf16_len(v[i]);
        i = i + 1;
        r.push(acc);
    }
    r
}

/// For each boundary, the entry of `pre` at its original-side position
/// (`original`) or at its normalized-side position.
fn pick(cuts: &Vec<(usize, usize)>, pre: &Vec<usize>, original: bool) -> (r: Vec<usize>)
    requires
        forall|k: int|
            0 <= k < cuts@.len() ==> (if original {
                (#[trigger] cuts@[k]).0
            } else {
                cuts@[k].1
            }) < pre@.len(),
    ensures
        r@.len() == cuts@.len(),
        forall|k: int|
            0 <= k < cuts@.len() ==> #[trigger] r@[k] == pre@[(if original {
                cuts@[k].0
            } else {
                cuts@[k].1
            }) as int],
{
    let mut r: Vec<usize> = Vec::new();
    let mut k: usize = 0;
    while k < cuts.len()
        invariant
            k <= cuts@.len(),
            r@.len() == k,
            forall|j: int|
                0 <= j < cuts@.len() ==> (if original {
                    (#[trigger] cuts@[j]).0
                } else {
                    cuts@[j].1
                }) < pre@.len(),
            forall|j: int|
                0 <= j < k ==> #[trigger] r@[j] == pre@[(if original {
                    cuts@[j].0
                } else {
                    cuts@[j].1
                }) as int],
        decreases cuts@.len() - k,
    {
        let at = if original {
            cuts[k].0
        } else {
            cuts[k].1
        };
        r.push(pre[at]);
        k = k + 1;
    }
    r
}

pub proof fn lemma_sizes_ascend(s: Seq<char>, a: int, b: int)
    requires
        0 <= a < b <= s.len(),
    ensures
        utf8_size(s.take(a)) < utf8_size(s.take(b)),
        utf16_size(s.take(a)) < utf16_size(s.take(b)),
    decreases b - a,
{
    assert(s.take(b).drop_last() =~= s.take(b - 1));
    if a < b - 1 {
        lemma_sizes_ascend(s, a, b - 1);
    }
}

proof fn lemma_cuts_range(b: Seq<(int, int)>, tlen: int, clen: int, k: int)
    requires
        cuts_wf(b, tlen, clen),
        0 <= k < b.len(),
    ensures
        0 <= b[k].0 <= tlen,
        0 <= b[k].1 <= clen,
{
    if k > 0 {
        assert(b[0].0 < b[k].0 && b[0].1 <= b[k].1);
    }
    if k < b.len() - 1 {
        assert(b[k].0 < b[b.len() - 1].0 && b[k].1 <= b[b.len() - 1].1);
    }
}

/// The position of each boundary on one side (`original`, or the normalized
/// text), counted in UTF-8 bytes (`bytes`) or in UTF-16 code units.
fn offsets(text: &str, list: &[Cleaner], original: bool, bytes: bool) -> (r: Vec<usize>)
    ensures
        r@.len() == boundaries(list@, text@).len(),
        forall|k: int|
            0 <= k < r@.len() ==> {
                let b = boundaries(list@, text@);
                let s = if original {
                    text@.take(b[k].0)
                } else {
                    normalize(list@, text@).take(b[k].1)
                };
                #[trigger] r@[k] == if bytes {
                    utf8_size(s)
                } else {
                    utf16_size(s)
                }
            },
        forall|a: int, b: int| 0 <= a <= b < r@.len() ==> #[trigger] r@[a] <= #[trigger] r@[b],
        r@.len() > 0,
        r@[0] == 0,
        r@.last() == (if bytes {
            utf8_size(
                if original {
                    text@
                } else {
                    normalize(list@, text@)
                },
            )
        } else {
            utf16_size(
                if original {
                    text@
                } else {
                    normalize(list@, text@)
                },
            )
        }),
{
    let t = to_chars(text);
    let (out, cuts) = pipeline_exec(list, &t);
    let ghost b = cuts_view(cuts@);
    let source = if original {
        &t
    } else {
        &out
    };
    let pre = if bytes {
        utf8_prefixes(source)
    } else {
        utf16_prefixes(source)
    };
    proof {
        assert forall|k: int|
            0 <= k < cuts@.len() implies (if original {
                (#[trigger] cuts@[k]).0
            } else {
                cuts@[k].1
            }) < pre@.len() by {
            lemma_cuts_range(b, t@.len() as int, out@.len() as int, k);
            assert(b[k] == (cuts@[k].0 as int, cuts@[k].1 as int));
        }
    }
    let r = pick(&cuts, &pre, original);
    proof {
        assert forall|k: int| 0 <= k < r@.len() implies {
            let s = if original {
                text@.take(b[k].0)
            } else {
                normalize(list@, text@).take(b[k].1)
            };
            #[trigger] r@[k] == if bytes {
                utf8_size(s)
            } else {
                utf16_size(s)
            }
        } by {
            lemma_cuts_range(b, t@.len() as int, out@.len() as int, k);
            assert(b[k] == (cuts@[k].0 as int, cuts@[k].1 as int));
        }
        let src = if original {
            t@
        } else {
            out@
        };
        assert forall|x: int, y: int| 0 <= x <= y < r@.len() implies #[trigger] r@[x]
            <= #[trigger] r@[y] by {
            lemma_cuts_range(b, t@.len() as int, out@.len() as int, x);
            lemma_cuts_range(b, t@.len() as int, out@.len() as int, y);
            let px = if original {
                b[x].0
            } else {
                b[x].1
            };
            let py = if original {
                b[y].0
            } else {
                b[y].1
            };
            if x < y {
                assert(b[x].0 < b[y].0 && b[x].1 <= b[y].1);
                if px < py {
                    lemma_sizes_ascend(src, px, py);
                }
            }
        }
        assert(b[0] == (0int, 0int));
        assert(src.take(0) =~= Seq::<char>::empty());
        assert(b[b.len() - 1] == (t@.len() as int, out@.len() as int));
        assert(t@.take(t@.len() as int) =~= t@);
        assert(out@.take(out@.len() as int) =~= out@);
        assert(r@.last() == r@[r@.len() - 1]);
    }
    r
}

/// Byte offsets in `text` of the boundaries between segments.
pub fn clean_text_u8idx_in(text: &str, list: &[Cleaner]) -> (r: Vec<usize>)
    ensures
        r@.len() == boundaries(list@, text@).len(),
        forall|k: int|
            0 <= k < r@.len() ==> #[trigger] r@[k] == utf8_size(
                text@.take(boundaries(list@, text@)[k].0),
            ),
{
    offsets(text, list, true, true)
}

/// Byte offsets in the normalized text of the boundaries between segments.
pub fn clean_text_u8idx_out(text: &str, list: &[Cleaner]) -> (r: Vec<usize>)
    ensures
        r@.len() == boundaries(list@, text@).len(),
        forall|k: int|
            0 <= k < r@.len() ==> #[trigger] r@[k] == utf8_size(
                normalize(list@, text@).take(boundaries(list@, text@)[k].1),
            ),
{
    offsets(text, list, false, true)
}

/// UTF-16 offsets in `text` of the boundaries between segments.
pub fn clean_text_u16idx_in(text: &str, list: &[Cleaner]) -> (r: Vec<usize>)
    ensures
        r@.len() == boundaries(list@, text@).len(),
        forall|k: int|
            0 <= k < r@.len() ==> #[trigger] r@[k] == utf16_size(
                text@.take(boundaries(list@, text@)[k].0),
            ),
{
    offsets(text, list, true, false)
}

/// UTF-16 offsets in the normalized text of the boundaries between segments.
pub fn clean_text_u16idx_out(text: &str, list: &[Cleaner]) -> (r: Vec<usize>)
    ensures
        r@.len() == boundaries(list@, text@).len(),
        forall|k: int|
            0 <= k < r@.len() ==> #[trigger] r@[k] == utf16_size(
                normalize(list@, text@).take(boundaries(list@, text@)[k].1),
            ),
{
    offsets(text, list, false, false)
}

} // verus!

verus! {

pub open spec fn ascending(v: Seq<usize>) -> bool {
    forall|a: int, b: int| 0 <= a <= b < v.len() ==> #[trigger] v[a] <= #[trigger] v[b]
}

/// The last boundary at or before `pos`.
fn last_at_or_before(outs: &Vec<usize>, pos: usize) -> (k: usize)
    requires
        outs@.len() > 0,
        outs@[0] <= pos,
        ascending(outs@),
    ensures
        k < outs@.len(),
        forall|j: int| 0 <= j < outs@.len() ==> (#[trigger] outs@[j] <= pos <==> j <= k),
{
    let mut k: usize = 0;
    while k < outs.len() - 1 && outs[k + 1] <= pos
        invariant
            k < outs@.len(),
            ascending(outs@),
            forall|j: int| 0 <= j <= k ==> #[trigger] outs@[j] <= pos,
        decreases outs@.len() - k,
    {
        k = k + 1;
    }
    proof {
        assert forall|j: int| 0 <= j < outs@.len() implies (#[trigger] outs@[j] <= pos <==> j
            <= k) by {
            if j > k {
                assert(outs@[k + 1] <= outs@[j]);
            }
        }
    }
    k
}

/// The first boundary at or after `pos`.
fn first_at_or_after(outs: &Vec<usize>, pos: usize) -> (k: usize)
    requires
        outs@.len() > 0,
        pos <= outs@.last(),
        ascending(outs@),
    ensures
        k < outs@.len(),
        outs@[k as int] >= pos,
        forall|j: int| 0 <= j < outs@.len() && #[trigger] outs@[j] >= pos ==> outs@[j] >= outs@[k as int],
{
    let n = outs.len();
    let mut k: usize = 0;
    while outs[k] < pos
        invariant
            n == outs@.len(),
            k < outs@.len(),
            ascending(outs@),
            forall|j: int| 0 <= j < k ==> #[trigger] outs@[j] < pos,
            pos <= outs@.last(),
        decreases outs@.len() - k,
    {
        assert(outs@.last() == outs@[outs@.len() - 1]);
        k = k + 1;
    }
    proof {
        assert forall|j: int| 0 <= j < outs@.len() && #[trigger] outs@[j] >= pos implies outs@[j]
            >= outs@[k as int] by {
            if j < k {
                assert(outs@[j] < pos);
            } else {
                assert(outs@[k as int] <= outs@[j]);
            }
        }
    }
    k
}

/// Position of boundary `k` in UTF-16 code units of `s`, on the original side
/// (`original`) or on the normalized side.
pub open spec fn u16_at(list: Seq<Cleaner>, text: Seq<char>, k: int, original: bool) -> nat {
    if original {
        utf16_size(text.take(boundaries(list, text)[k].0))
    } else {
        utf16_size(normalize(list, text).take(boundaries(list, text)[k].1))
    }
}

/// The range of `text`, in UTF-16 code units, that the range `start..end` of
/// its normalized text stands for. The start moves back to the last boundary
/// at or before it. The end moves forward to the first boundary position at or
/// after it, and to the last boundary there, so that the dropped copies of a
/// shortened run belong to the range that ends with the kept ones.
pub fn input_range_u16(text: &str, list: &[Cleaner], start: usize, end: usize) -> (r: (
    usize,
    usize,
))
    requires
        start <= end <= utf16_size(normalize(list@, text@)),
    ensures
        ({
            let n = boundaries(list@, text@).len() as int;
            &&& exists|k: int|
                0 <= k < n && r.0 == u16_at(list@, text@, k, true) && forall|j: int|
                    0 <= j < n ==> (#[trigger] u16_at(list@, text@, j, false) <= start <==> j
                        <= k)
            &&& exists|k: int|
                0 <= k < n && r.1 == u16_at(list@, text@, k, true) && u16_at(list@, text@, k, false)
                    >= end && (forall|j: int|
                    0 <= j < n ==> (#[trigger] u16_at(list@, text@, j, false) <= u16_at(
                        list@,
                        text@,
                        k,
                        false,
                    ) <==> j <= k)) && (forall|j: int|
                    0 <= j < n && #[trigger] u16_at(list@, text@, j, false) >= end ==> u16_at(
                        list@,
                        text@,
                        j,
                        false,
                    ) >= u16_at(list@, text@, k, false))
        }),
{
    let ins = offsets(text, list, true, false);
    let outs = offsets(text, list, false, false);
    let k0 = last_at_or_before(&outs, start);
    let k1 = first_at_or_after(&outs, end);
    let k2 = last_at_or_before(&outs, outs[k1]);
    proof {
        let n = boundaries(list@, text@).len() as int;
        assert forall|j: int| 0 <= j < n implies #[trigger] u16_at(list@, text@, j, false)
            == outs@[j] by {}
        assert(k2 >= k1);
        assert(outs@[k2 as int] == outs@[k1 as int]);
        assert(ins@[k0 as int] == u16_at(list@, text@, k0 as int, true));
        assert(ins@[k2 as int] == u16_at(list@, text@, k2 as int, true));
    }
    (ins[k0], ins[k2])
}

} // verus!

verus! {

/// Whether the original pieces of the segments of `text` join to `text`
/// itself; always so.
pub fn test_does_not_lose_segments(text: &str, list: &[Cleaner]) -> (r: bool)
    ensures
        r,
{
    let segs = clean_iter(text, list);
    let mut joined: Vec<char> = Vec::new();
    let mut k: usize = 0;
    while k < segs.len()
        invariant
            k <= segs@.len(),
            joined@ == joined_inputs(segs@.take(k as int)),
        decreases segs@.len() - k,
    {
        let piece = to_chars(segs[k].0.as_str());
        let mut i: usize = 0;
        let ghost before = joined@;
        while i < piece.len()
            invariant
                i <= piece@.len(),
                joined@ == before + piece@.take(i as int),
            decreases piece@.len() - i,
        {
            joined.push(piece[i]);
            i = i + 1;
            proof {
                assert(joined@ =~= before + piece@.take(i as int));
            }
        }
        proof {
            assert(segs@.take(k + 1).drop_last() =~= segs@.take(k as int));
            assert(piece@.take(i as int) =~= piece@);
        }
        k = k + 1;
    }
    proof {
        assert(segs@.take(k as int) =~= segs@);
    }
    let t = to_chars(text);
    let n = t.len();
    if joined.len() != n {
        return false;
    }
    let mut i: usize = 0;
    while i < n
        invariant
            n == t@.len(),
            joined@ == t@,
            i <= n,
        decreases n - i,
    {
        if joined[i] != t[i] {
            return false;
        }
        i = i + 1;
    }
    true
}

} // verus!
