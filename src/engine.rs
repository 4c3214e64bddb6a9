//! The rule pipeline, and the boundaries that tie positions of the original
//! text to positions of the normalized text through every rule.
use vstd::prelude::*;
use crate::chars::{char_count, from_chars, to_chars};
use crate::cleaner::{apply_rule, flat_exec, lemma_scan, scan, scan_exec, Cleaner};
use crate::pieces::{
    advancing, flat, lemma_out_at, lemma_sum_in_take, out_at, sum_in, view_all, Piece, PieceV,
};

verus! {

/// The text after every rule of `rules`, in order, each applied to what the
/// one before it produced.
pub open spec fn normalize(rules: Seq<Cleaner>, t: Seq<char>) -> Seq<char>
    decreases rules.len(),
{
    if rules.len() == 0 {
        t
    } else {
        normalize(rules.drop_first(), apply_rule(rules[0], t))
    }
}

/// Boundaries: pairs of a position in the original text and a position in the
/// current text.
pub type Cuts = Seq<(int, int)>;

pub open spec fn cuts_view(v: Seq<(usize, usize)>) -> Cuts {
    v.map_values(|x: (usize, usize)| (x.0 as int, x.1 as int))
}

/// Boundaries of a `tlen`-character text and a `clen`-character text: they
/// start at the two starts, end at the two ends, and ascend (strictly on the
/// original side).
pub open spec fn cuts_wf(cuts: Cuts, tlen: int, clen: int) -> bool {
    &&& cuts.len() >= 1
    &&& cuts[0] == (0int, 0int)
    &&& cuts.last() == (tlen, clen)
    &&& forall|a: int, b: int|
        0 <= a < b < cuts.len() ==> #[trigger] cuts[a].0 < #[trigger] cuts[b].0 && cuts[a].1
            <= cuts[b].1
}

/// The boundaries that survive one rule application: those that fall between
/// two of its pieces, moved to where that point lands in the new text.
pub open spec fn remap(cuts: Cuts, ps: Seq<PieceV>) -> Cuts
    decreases cuts.len(),
{
    if cuts.len() == 0 {
        Seq::empty()
    } else {
        let prev = remap(cuts.drop_last(), ps);
        match out_at(ps, cuts.last().1) {
            Some(o) => prev.push((cuts.last().0, o)),
            None => prev,
        }
    }
}

/// Before any rule, every character is a unit of its own.
pub open spec fn initial_cuts(t: Seq<char>) -> Cuts {
    Seq::new(t.len() + 1, |k: int| (k, k))
}

/// The text and the boundaries after every rule of `rules`.
pub open spec fn pipeline(rules: Seq<Cleaner>, t: Seq<char>, cuts: Cuts) -> (Seq<char>, Cuts)
    decreases rules.len(),
{
    if rules.len() == 0 {
        (t, cuts)
    } else {
        let ps = scan(rules[0], t, 0);
        pipeline(rules.drop_first(), flat(ps), remap(cuts, ps))
    }
}

/// The boundaries between the original text `t` and its normalized text.
pub open spec fn boundaries(rules: Seq<Cleaner>, t: Seq<char>) -> Cuts {
    pipeline(rules, t, initial_cuts(t)).1
}

pub proof fn lemma_pipeline_text(rules: Seq<Cleaner>, t: Seq<char>, cuts: Cuts)
    ensures
        pipeline(rules, t, cuts).0 == normalize(rules, t),
    decreases rules.len(),
{
    if rules.len() > 0 {
        let ps = scan(rules[0], t, 0);
        lemma_pipeline_text(rules.drop_first(), flat(ps), remap(cuts, ps));
    }
}

/// The text after every rule of `rules`.
pub fn normalize_exec(rules: &[Cleaner], t: &Vec<char>) -> (r: Vec<char>)
    ensures
        r@ == normalize(rules@, t@),
{
    let mut cur = t.clone();
    let mut i: usize = 0;
    proof {
        assert(rules@.subrange(0, rules@.len() as int) =~= rules@);
    }
    while i < rules.len()
        invariant
            i <= rules@.len(),
            normalize(rules@.subrange(i as int, rules@.len() as int), cur@) == normalize(
                rules@,
                t@,
            ),
        decreases rules@.len() - i,
    {
        let ghost rest = rules@.subrange(i as int, rules@.len() as int);
        let ps = scan_exec(rules[i], &cur);
        cur = flat_exec(&ps);
        proof {
            assert(rest.drop_first() =~= rules@.subrange(i + 1, rules@.len() as int));
        }
        i = i + 1;
    }
    cur
}

fn initial_cuts_exec(t: &Vec<char>) -> (r: Vec<(usize, usize)>)
    ensures
        cuts_view(r@) == initial_cuts(t@),
{
    let n = char_count(t);
    let mut r: Vec<(usize, usize)> = Vec::new();
    let mut k: usize = 0;
    while k <= n
        invariant
            n == t@.len(),
            n <= usize::MAX / 4,
            k <= n + 1,
            cuts_view(r@) == Seq::new(k as nat, |i: int| (i, i)),
        decreases n + 1 - k,
    {
        let ghost before = r@;
        r.push((k, k));
        proof {
            assert(cuts_view(r@) =~= cuts_view(before).push((k as int, k as int)));
            assert(cuts_view(r@) =~= Seq::new((k + 1) as nat, |i: int| (i, i)));
        }
        k = k + 1;
    }
    proof {
        assert(cuts_view(r@) =~= initial_cuts(t@));
    }
    r
}

pub open spec fn pairs_ascending(r: Seq<(usize, usize)>) -> bool {
    forall|a: int, b: int|
        0 <= a < b < r.len() ==> #[trigger] r[a].0 < #[trigger] r[b].0 && r[a].1 <= r[b].1
}

proof fn lemma_push_ascending(r: Seq<(usize, usize)>, x: (usize, usize))
    requires
        pairs_ascending(r),
        r.len() > 0 ==> r.last().0 < x.0 && r.last().1 <= x.1,
    ensures
        pairs_ascending(r.push(x)),
{
    let s = r.push(x);
    assert forall|a: int, b: int| 0 <= a < b < s.len() implies #[trigger] s[a].0 < #[trigger] s[b].0
        && s[a].1 <= s[b].1 by {
        if b == s.len() - 1 {
            assert(s[a] == r[a] && s[b] == x);
            if a < r.len() - 1 {
                assert(r[a].0 < r[r.len() - 1].0 && r[a].1 <= r[r.len() - 1].1);
            }
        } else {
            assert(s[a] == r[a] && s[b] == r[b]);
        }
    }
}

/// The boundaries that survive the rule application `ps`.
fn remap_exec(cuts: &Vec<(usize, usize)>, ps: &Vec<Piece>, tlen: usize, new_len: usize) -> (r:
    Vec<(usize, usize)>)
    requires
        cuts_wf(cuts_view(cuts@), tlen as int, sum_in(view_all(ps@)) as int),
        advancing(view_all(ps@)),
        new_len == flat(view_all(ps@)).len(),
    ensures
        cuts_view(r@) == remap(cuts_view(cuts@), view_all(ps@)),
        cuts_wf(cuts_view(r@), tlen as int, new_len as int),
{
    let ghost v = view_all(ps@);
    let ghost cv = cuts_view(cuts@);
    let mut r: Vec<(usize, usize)> = Vec::new();
    let mut i: usize = 0;
    let mut j: usize = 0;
    let mut pin: usize = 0;
    let mut pout: usize = 0;
    proof {
        assert(v.take(0) =~= Seq::<PieceV>::empty());
        assert(v.take(v.len() as int) =~= v);
        assert(cv.take(0) =~= Seq::<(int, int)>::empty());
    }
    while i < cuts.len()
        invariant
            v == view_all(ps@),
            cv == cuts_view(cuts@),
            cuts_wf(cv, tlen as int, sum_in(v) as int),
            advancing(v),
            new_len == flat(v).len(),
            v.take(v.len() as int) == v,
            i <= cv.len(),
            j <= v.len(),
            pin == sum_in(v.take(j as int)),
            pout == flat(v.take(j as int)).len(),
            i > 0 ==> pin <= cv[i - 1].1,
            i == 0 ==> j == 0 && pin == 0,
            cuts_view(r@) == remap(cv.take(i as int), v),
            i > 0 ==> r@.len() > 0 && cuts_view(r@)[0] == (0int, 0int),
            i == cv.len() ==> r@.len() > 0 && cuts_view(r@).last() == (tlen as int, new_len as int),
            r@.len() > 0 ==> i > 0 && r@.last().0 <= cv[i - 1].0 && r@.last().1 <= pout,
            pairs_ascending(r@),
        decreases cv.len() - i,
    {
        let q = cuts[i].1;
        proof {
            assert(sum_in(v) == cv.last().1);
            assert(cv.last().1 == cuts@[cv.len() - 1].1);
            if i > 0 {
                assert(cv[i - 1].1 <= cv[i as int].1);
            }
        }
        let ghost pout0 = pout;
        while j < ps.len()
            invariant
                pout0 <= pout,
                v == view_all(ps@),
                advancing(v),
                v.take(v.len() as int) == v,
                new_len == flat(v).len(),
                q == cv[i as int].1,
                q <= sum_in(v),
                i < cv.len(),
                j <= v.len(),
                pin == sum_in(v.take(j as int)),
                pout == flat(v.take(j as int)).len(),
                pin <= q,
            sum_in(v) <= usize::MAX,
        ensures
            pout0 <= pout,
            pin == sum_in(v.take(j as int)),
            pout == flat(v.take(j as int)).len(),
            pin <= q,
            j <= v.len(),
            j == v.len() || q < sum_in(v.take(j + 1)),
        decreases v.len() - j,
        {
            proof {
                lemma_sum_in_take(v, j + 1, v.len() as int);
                assert(v.take(j + 1).drop_last() =~= v.take(j as int));
                assert(v.take(j + 1).last() == v[j as int]);
            }
            if pin + ps[j].len > q {
                proof {
                    assert(q < sum_in(v.take(j + 1)));
                }
                break ;
            }
            pin = pin + ps[j].len;
            pout = pout + ps[j].out.len();
            j = j + 1;
        }
        proof {
            if j < v.len() {
                assert(v.take(j + 1).drop_last() =~= v.take(j as int));
                assert(v.take(j + 1).last() == v[j as int]);
            }
            lemma_out_at(v, j as int, q as int);
            assert(cv.take(i + 1).drop_last() =~= cv.take(i as int));
            assert(cv.take(i + 1).last() == cv[i as int]);
            if i + 1 == cv.len() {
                assert(q == sum_in(v));
                if j < v.len() {
                    lemma_sum_in_take(v, j + 1, v.len() as int);
                }
                assert(j == v.len());
            }
            if i == 0 {
                assert(q == 0);
                if j > 0 {
                    lemma_sum_in_take(v, 0, j as int);
                }
            }
        }
        if pin == q {
            let ghost before = r@;
            r.push((cuts[i].0, pout));
            proof {
                assert(cuts_view(r@) =~= cuts_view(before).push((cv[i as int].0, pout as int)));
                if before.len() > 0 {
                    assert(cv[i - 1].0 < cv[i as int].0);
                    assert(cuts_view(r@)[0] == cuts_view(before)[0]);
                }
                lemma_push_ascending(before, (cuts@[i as int].0, pout));
            }
        }
        proof {
            if i > 0 {
                assert(cv[i - 1].0 < cv[i as int].0);
            }
        }
        i = i + 1;
    }
    proof {
        assert(cv.take(cv.len() as int) =~= cv);
        assert forall|a: int, b: int|
            0 <= a < b < cuts_view(r@).len() implies #[trigger] cuts_view(r@)[a].0
            < #[trigger] cuts_view(r@)[b].0 && cuts_view(r@)[a].1 <= cuts_view(r@)[b].1 by {
            assert(r@[a].0 < r@[b].0);
        }
    }
    r
}

} // verus!

verus! {

proof fn lemma_initial_cuts(t: Seq<char>)
    ensures
        cuts_wf(initial_cuts(t), t.len() as int, t.len() as int),
{
    let c = initial_cuts(t);
    assert(c[0] == (0int, 0int));
    assert(c.last() == (t.len() as int, t.len() as int));
}

/// The normalized text of `t` and its boundaries.
pub fn pipeline_exec(rules: &[Cleaner], t: &Vec<char>) -> (r: (Vec<char>, Vec<(usize, usize)>))
    ensures
        r.0@ == normalize(rules@, t@),
        cuts_view(r.1@) == boundaries(rules@, t@),
        cuts_wf(cuts_view(r.1@), t@.len() as int, r.0@.len() as int),
{
    let tlen = char_count(t);
    let mut cur = t.clone();
    let mut cuts = initial_cuts_exec(t);
    let mut i: usize = 0;
    proof {
        assert(rules@.subrange(0, rules@.len() as int) =~= rules@);
        lemma_initial_cuts(t@);
        lemma_pipeline_text(rules@, t@, initial_cuts(t@));
    }
    while i < rules.len()
        invariant
            i <= rules@.len(),
            tlen == t@.len(),
            pipeline(rules@.subrange(i as int, rules@.len() as int), cur@, cuts_view(cuts@))
                == pipeline(rules@, t@, initial_cuts(t@)),
            cuts_wf(cuts_view(cuts@), tlen as int, cur@.len() as int),
        decreases rules@.len() - i,
    {
        let ghost rest = rules@.subrange(i as int, rules@.len() as int);
        let ps = scan_exec(rules[i], &cur);
        proof {
            lemma_scan(rules@[i as int], cur@, 0);
        }
        let next = flat_exec(&ps);
        let new_len = next.len();
        cuts = remap_exec(&cuts, &ps, tlen, new_len);
        cur = next;
        proof {
            assert(rest.drop_first() =~= rules@.subrange(i + 1, rules@.len() as int));
        }
        i = i + 1;
    }
    proof {
        lemma_pipeline_text(rules@, t@, initial_cuts(t@));
        assert(rules@.subrange(i as int, rules@.len() as int) =~= Seq::<Cleaner>::empty());
    }
    (cur, cuts)
}

} // verus!

verus! {

/// The normalized form of `raw`: every rule of `list` applied in order.
pub fn clean_text(raw: &str, list: &[Cleaner]) -> (r: String)
    ensures
        r@ == normalize(list@, raw@),
{
    let t = to_chars(raw);
    let n = normalize_exec(list, &t);
    from_chars(&n)
}

/// The normalized form of `raw`.
pub fn clean_text_string(raw: &str, list: &[Cleaner]) -> (r: String)
    ensures
        r@ == normalize(list@, raw@),
{
    clean_text(raw, list)
}

} // verus!
