//! General properties of normalization and of the offset tables.
use vstd::prelude::*;
use crate::chars::{is_space, utf16_size, utf8_size};
use crate::cleaner::{apply_rule, lemma_runs, lemma_step, scan, space_run, step, Cleaner};
use crate::offsets::lemma_sizes_ascend;
use crate::engine::{
    boundaries, initial_cuts, normalize, pipeline, remap, Cuts, lemma_pipeline_text,
};
use crate::pieces::{flat, lemma_out_at_within, lemma_single, lemma_sum_in_concat, PieceV};

verus! {

/// Every whitespace character of `s` is a space, and no two of them stand
/// side by side.
pub open spec fn single_spaced(s: Seq<char>) -> bool {
    forall|i: int|
        0 <= i < s.len() && #[trigger] is_space(s[i]) ==> s[i] == ' ' && (i + 1 < s.len()
            ==> !is_space(s[i + 1]))
}

proof fn lemma_space_run_end(s: Seq<char>, p: int)
    requires
        0 <= p <= s.len(),
    ensures
        space_run(s, p + space_run(s, p)) == 0,
    decreases s.len() - p,
{
    if p < s.len() && is_space(s[p]) {
        lemma_space_run_end(s, p + 1);
    }
}

proof fn lemma_whitespace_scan(s: Seq<char>, p: int)
    requires
        0 <= p <= s.len(),
    ensures
        single_spaced(s) ==> flat(scan(Cleaner::Whitespace, s, p)) == s.subrange(p, s.len() as int),
        single_spaced(flat(scan(Cleaner::Whitespace, s, p))),
        p < s.len() ==> flat(scan(Cleaner::Whitespace, s, p)).len() > 0 && (is_space(
            flat(scan(Cleaner::Whitespace, s, p))[0],
        ) <==> is_space(s[p])),
    decreases s.len() - p,
{
    let r = Cleaner::Whitespace;
    if p == s.len() {
        assert(s.subrange(p, p) =~= Seq::<char>::empty());
        assert(flat(Seq::<PieceV>::empty()) =~= Seq::<char>::empty());
    } else {
        lemma_step(r, s, p);
        lemma_runs(s, p);
        let st = step(r, s, p);
        let k = st.0 as int;
        lemma_whitespace_scan(s, p + k);
        let rest = scan(r, s, p + k);
        assert(scan(r, s, p) == st.1 + rest);
        lemma_sum_in_concat(st.1, rest);
        lemma_single(st.1[0]);
        assert(st.1 =~= seq![st.1[0]]);
        let head = st.1[0].1;
        let tail = flat(rest);
        let all = head + tail;
        assert(flat(scan(r, s, p)) == all);
        if is_space(s[p]) {
            assert(head =~= seq![' ']);
            lemma_space_run_end(s, p);
            assert(space_run(s, p + k) == 0);
            if p + k < s.len() {
                assert(!is_space(s[p + k]));
            }
        } else {
            assert(head =~= seq![s[p]]);
        }
        assert(single_spaced(all)) by {
            assert forall|i: int| 0 <= i < all.len() && #[trigger] is_space(all[i]) implies all[i]
                == ' ' && (i + 1 < all.len() ==> !is_space(all[i + 1])) by {
                if i == 0 {
                    if i + 1 < all.len() {
                        assert(all[1] == tail[0]);
                    }
                } else {
                    assert(all[i] == tail[i - 1]);
                    if i + 1 < all.len() {
                        assert(all[i + 1] == tail[i]);
                    }
                }
            }
        }
        assert(all[0] == head[0]);
        if single_spaced(s) {
            if is_space(s[p]) {
                assert(s[p] == ' ');
                if p + 1 < s.len() {
                    assert(!is_space(s[p + 1]));
                }
                assert(space_run(s, p + 1) == 0);
                assert(k == 1);
            }
            assert(s.subrange(p, s.len() as int) =~= seq![s[p]] + s.subrange(p + k, s.len() as int));
        }
    }
}

/// Collapsing whitespace leaves a single-spaced text unchanged.
pub proof fn lemma_whitespace_unchanged(s: Seq<char>)
    requires
        single_spaced(s),
    ensures
        apply_rule(Cleaner::Whitespace, s) == s,
        normalize(seq![Cleaner::Whitespace], s) == s,
{
    lemma_whitespace_scan(s, 0);
    assert(s.subrange(0, s.len() as int) =~= s);
    let one = seq![Cleaner::Whitespace];
    assert(one.drop_first() =~= Seq::<Cleaner>::empty());
    assert(normalize(one, s) == normalize(one.drop_first(), apply_rule(one[0], s)));
}

/// Collapsing whitespace twice gives what collapsing it once gives.
pub proof fn lemma_whitespace_idempotent(s: Seq<char>)
    ensures
        single_spaced(apply_rule(Cleaner::Whitespace, s)),
        apply_rule(Cleaner::Whitespace, apply_rule(Cleaner::Whitespace, s)) == apply_rule(
            Cleaner::Whitespace,
            s,
        ),
{
    lemma_whitespace_scan(s, 0);
    lemma_whitespace_unchanged(apply_rule(Cleaner::Whitespace, s));
}

} // verus!

verus! {

/// Every boundary lies within the original text of length `tlen` and the
/// current text of length `clen`.
pub open spec fn cuts_within(cuts: Cuts, tlen: int, clen: int) -> bool {
    forall|i: int|
        0 <= i < cuts.len() ==> 0 <= #[trigger] cuts[i].0 <= tlen && 0 <= cuts[i].1 <= clen
}

proof fn lemma_remap_within(cuts: Cuts, ps: Seq<PieceV>, tlen: int, clen: int)
    requires
        cuts_within(cuts, tlen, clen),
    ensures
        cuts_within(remap(cuts, ps), tlen, flat(ps).len() as int),
    decreases cuts.len(),
{
    if cuts.len() > 0 {
        let d = cuts.drop_last();
        assert(cuts_within(d, tlen, clen)) by {
            assert forall|i: int| 0 <= i < d.len() implies 0 <= #[trigger] d[i].0 <= tlen && 0
                <= d[i].1 <= clen by {
                assert(d[i] == cuts[i]);
            }
        }
        lemma_remap_within(d, ps, tlen, clen);
        lemma_out_at_within(ps, cuts.last().1);
        assert(cuts.last() == cuts[cuts.len() - 1]);
    }
}

proof fn lemma_pipeline_within(rules: Seq<Cleaner>, t: Seq<char>, cuts: Cuts, tlen: int)
    requires
        cuts_within(cuts, tlen, t.len() as int),
    ensures
        cuts_within(pipeline(rules, t, cuts).1, tlen, pipeline(rules, t, cuts).0.len() as int),
    decreases rules.len(),
{
    if rules.len() > 0 {
        let ps = scan(rules[0], t, 0);
        lemma_remap_within(cuts, ps, tlen, t.len() as int);
        lemma_pipeline_within(rules.drop_first(), flat(ps), remap(cuts, ps), tlen);
    }
}

/// Each boundary lies within the original text and within its normalized text.
pub proof fn lemma_boundaries_within(rules: Seq<Cleaner>, t: Seq<char>)
    ensures
        cuts_within(boundaries(rules, t), t.len() as int, normalize(rules, t).len() as int),
{
    lemma_pipeline_within(rules, t, initial_cuts(t), t.len() as int);
    lemma_pipeline_text(rules, t, initial_cuts(t));
}

proof fn lemma_sizes_determine(s: Seq<char>, a: int, b: int)
    requires
        0 <= a <= s.len(),
        0 <= b <= s.len(),
    ensures
        (utf8_size(s.take(a)) == utf8_size(s.take(b))) == (a == b),
        (utf16_size(s.take(a)) == utf16_size(s.take(b))) == (a == b),
{
    if a < b {
        lemma_sizes_ascend(s, a, b);
    } else if b < a {
        lemma_sizes_ascend(s, b, a);
    }
}

/// The byte table and the UTF-16 table name the same boundaries: the entry of
/// either table at index `i` is reached after exactly one number of scalar
/// values, and that number is the same for both tables; so on the original
/// side and on the normalized side.
pub proof fn lemma_granularity_agreement(rules: Seq<Cleaner>, t: Seq<char>, i: int, k: int)
    requires
        0 <= i < boundaries(rules, t).len(),
    ensures
        0 <= k <= t.len() ==> {
            let at = boundaries(rules, t)[i].0;
            &&& (utf8_size(t.take(k)) == utf8_size(t.take(at))) == (k == at)
            &&& (utf16_size(t.take(k)) == utf16_size(t.take(at))) == (k == at)
        },
        0 <= k <= normalize(rules, t).len() ==> {
            let c = normalize(rules, t);
            let at = boundaries(rules, t)[i].1;
            &&& (utf8_size(c.take(k)) == utf8_size(c.take(at))) == (k == at)
            &&& (utf16_size(c.take(k)) == utf16_size(c.take(at))) == (k == at)
        },
{
    lemma_boundaries_within(rules, t);
    let b = boundaries(rules, t);
    assert(0 <= b[i].0 <= t.len() && 0 <= b[i].1 <= normalize(rules, t).len());
    if 0 <= k <= t.len() {
        lemma_sizes_determine(t, k, b[i].0);
    }
    if 0 <= k <= normalize(rules, t).len() {
        lemma_sizes_determine(normalize(rules, t), k, b[i].1);
    }
}

} // verus!
