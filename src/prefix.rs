//! Normalization commutes with cutting the text at a boundary: normalizing the
//! original text up to a boundary gives the normalized text up to it.
use vstd::prelude::*;
use crate::chars::in_url;
use crate::cleaner::{
    apply_rule, has_at, host_run, hex_run, http_lit, https_lit, lemma_rep_pieces, lemma_runs,
    lemma_scan, lemma_step, rep_count, rep_pieces, run_end, scan, scheme_len, space_run, step,
    unit_at, unit_here, url_run, www_lit, Cleaner, KEPT, THRESHOLD,
};
use crate::engine::{
    boundaries, initial_cuts, lemma_pipeline_text, normalize, pipeline, remap, Cuts,
};
use crate::pieces::{
    advancing, flat, lemma_out_at, lemma_out_at_within, lemma_single, lemma_sum_in_concat, out_at,
    sum_in, PieceV,
};

verus! {

proof fn lemma_out_at_concat(a: Seq<PieceV>, b: Seq<PieceV>, x: int)
    requires
        x >= 0,
    ensures
        out_at(a + b, sum_in(a) + x) == (match out_at(b, x) {
            Some(o) => Some(flat(a).len() + o),
            None => None::<int>,
        }),
    decreases b.len(),
{
    lemma_sum_in_concat(a, b);
    if b.len() == 0 {
        assert(a + b =~= a);
    } else {
        assert((a + b).drop_last() =~= a + b.drop_last());
        lemma_out_at_concat(a, b.drop_last(), x);
        lemma_sum_in_concat(a, b.drop_last());
    }
}

proof fn lemma_out_at_front(a: Seq<PieceV>, b: Seq<PieceV>, q: int)
    requires
        advancing(b),
        0 <= q <= sum_in(a),
    ensures
        out_at(a + b, q) == out_at(a, q),
    decreases b.len(),
{
    lemma_sum_in_concat(a, b);
    if b.len() == 0 {
        assert(a + b =~= a);
    } else {
        let d = b.drop_last();
        assert(b.last().0 >= 1);
        assert((a + b).drop_last() =~= a + d);
        assert(advancing(d)) by {
            assert forall|i: int| 0 <= i < d.len() implies #[trigger] d[i].0 >= 1 by {
                assert(d[i] == b[i]);
            }
        }
        lemma_sum_in_concat(a, d);
        lemma_out_at_front(a, d, q);
    }
}

proof fn lemma_has_at_prefix(c: Seq<char>, q: int, p: int, lit: Seq<char>)
    requires
        0 <= p,
        0 <= q <= c.len(),
    ensures
        has_at(c.take(q), p, lit) ==> has_at(c, p, lit),
        has_at(c, p, lit) && p + lit.len() <= q ==> has_at(c.take(q), p, lit),
{
    if p + lit.len() <= q {
        assert(c.take(q).subrange(p, p + lit.len()) =~= c.subrange(p, p + lit.len()));
    }
}

proof fn lemma_runs_prefix(c: Seq<char>, q: int, p: int)
    requires
        0 <= p <= q <= c.len(),
    ensures
        p + space_run(c, p) <= q ==> space_run(c.take(q), p) == space_run(c, p),
        p + hex_run(c, p) <= q ==> hex_run(c.take(q), p) == hex_run(c, p),
        p + url_run(c, p) <= q ==> url_run(c.take(q), p) == url_run(c, p),
        p + host_run(c, p) <= q ==> host_run(c.take(q), p) == host_run(c, p),
    decreases q - p,
{
    if p < q {
        lemma_runs_prefix(c, q, p + 1);
    }
}

proof fn lemma_www_url(c: Seq<char>, p: int)
    requires
        has_at(c, p, www_lit()),
    ensures
        url_run(c, p) >= 4,
{
    let s = c.subrange(p, p + 4);
    assert(s[0] == 'w' && s[1] == 'w' && s[2] == 'w' && s[3] == '.');
    assert(in_url(c[p + 3]));
    assert(url_run(c, p + 3) >= 1);
    assert(url_run(c, p + 2) >= 2);
    assert(url_run(c, p + 1) >= 3);
}

proof fn lemma_rep_prefix(c: Seq<char>, u: Seq<char>, q: int, s: int, k: nat)
    requires
        0 <= s <= q <= c.len(),
        u.len() > 0,
    ensures
        rep_count(c.take(q), u, s) <= rep_count(c, u, s),
        run_end(c, u, s) <= q ==> rep_count(c.take(q), u, s) == rep_count(c, u, s) && run_end(
            c.take(q),
            u,
            s,
        ) == run_end(c, u, s) && rep_pieces(c.take(q), u, s, k) == rep_pieces(c, u, s, k),
    decreases c.len() - s,
{
    lemma_has_at_prefix(c, q, s, u);
    if unit_here(c, u, s) {
        lemma_rep_pieces(c, u, s + u.len(), k + 1);
        if s + u.len() <= q {
            lemma_rep_prefix(c, u, q, s + u.len(), k + 1);
        }
    }
}

/// A step that ends before `q` is the same step in the text cut at `q`.
proof fn lemma_step_prefix(r: Cleaner, c: Seq<char>, q: int, p: int)
    requires
        0 <= p < q <= c.len(),
        p + step(r, c, p).0 <= q,
    ensures
        step(r, c.take(q), p) == step(r, c, p),
{
    let d = c.take(q);
    lemma_runs(c, p);
    lemma_runs_prefix(c, q, p);
    assert(d[p] == c[p]);
    match r {
        Cleaner::Whitespace => {},
        Cleaner::Hash => {
            let n = hex_run(c, p);
            if p + 6 <= q {
                assert(d.subrange(p, p + 6) =~= c.subrange(p, p + 6));
            }
            assert(d.subrange(p, p + n) =~= c.subrange(p, p + n));
        },
        Cleaner::Link => {
            lemma_has_at_prefix(c, q, p, https_lit());
            lemma_has_at_prefix(c, q, p, http_lit());
            lemma_has_at_prefix(c, q, p, www_lit());
            let h = scheme_len(c, p);
            if h > 0 || has_at(c, p, www_lit()) {
                if h == 0 {
                    lemma_www_url(c, p);
                }
                lemma_runs(c, p + h);
                lemma_runs_prefix(c, q, p + h);
                assert(scheme_len(d, p) == h);
                let e = p + h + host_run(c, p + h);
                assert(d.subrange(p + h, e) =~= c.subrange(p + h, e));
            }
        },
        _ => {
            let u = unit_at(r, c, p);
            if r is Pair && p + 1 < q {
                assert(d[p + 1] == c[p + 1]);
                assert(d.subrange(p, p + 2) =~= c.subrange(p, p + 2));
            }
            if u.len() > 0 && rep_count(c, u, p) >= THRESHOLD {
                lemma_rep_pieces(c, u, p, 0);
                lemma_rep_prefix(c, u, q, p, 0);
                assert(unit_at(r, d, p) == u);
            } else if u.len() > 0 {
                lemma_rep_prefix(c, u, q, p, 0);
            }
        },
    }
}

} // verus!

verus! {

proof fn lemma_inside_single(x: PieceV, y: int)
    requires
        0 < y < x.0,
    ensures
        out_at(seq![x], y) is None,
{
    let s = seq![x];
    lemma_single(x);
    assert(s.drop_last() =~= Seq::<PieceV>::empty());
    assert(out_at(s, y) == out_at(s.drop_last(), y));
}

proof fn lemma_out_at_zero(ps: Seq<PieceV>)
    requires
        advancing(ps),
    ensures
        out_at(ps, 0) == Some(0int),
{
    assert(ps.take(0) =~= Seq::<PieceV>::empty());
    if ps.len() > 0 {
        crate::pieces::lemma_sum_in_take(ps, 0, 1);
    }
    lemma_out_at(ps, 0, 0);
}

/// Cutting a run of copies at a boundary between two of its pieces keeps the
/// copies before the cut, with the same pieces.
proof fn lemma_rep_cut(c: Seq<char>, u: Seq<char>, q: int, s: int, k: nat)
    requires
        0 <= s <= q <= run_end(c, u, s),
        s <= c.len(),
        u.len() > 0,
        out_at(rep_pieces(c, u, s, k), q - s) is Some,
    ensures
        flat(rep_pieces(c.take(q), u, s, k)) == flat(rep_pieces(c, u, s, k)).take(
            out_at(rep_pieces(c, u, s, k), q - s)->0,
        ),
        run_end(c.take(q), u, s) == q,
        q > s ==> q >= s + u.len(),
    decreases c.len() - s,
{
    let ps = rep_pieces(c, u, s, k);
    lemma_rep_pieces(c, u, s, k);
    let d = c.take(q);
    lemma_has_at_prefix(c, q, s, u);
    if q == s {
        lemma_out_at_zero(ps);
        assert(flat(ps).take(0) =~= Seq::<char>::empty());
    } else {
        assert(unit_here(c, u, s));
        let x = (u.len(), if k < KEPT { u } else { Seq::<char>::empty() });
        let rest = rep_pieces(c, u, s + u.len(), k + 1);
        lemma_rep_pieces(c, u, s + u.len(), k + 1);
        assert(ps == seq![x] + rest);
        lemma_single(x);
        if q - s < u.len() {
            lemma_out_at_front(seq![x], rest, q - s);
            lemma_inside_single(x, q - s);
            assert(false);
        }
        lemma_out_at_concat(seq![x], rest, q - s - u.len());
        lemma_rep_cut(c, u, q, s + u.len(), k + 1);
        let o2 = out_at(rest, q - s - u.len())->0;
        lemma_out_at_within(rest, q - s - u.len());
        let rd = rep_pieces(d, u, s + u.len(), k + 1);
        assert(rep_pieces(d, u, s, k) == seq![x] + rd);
        lemma_sum_in_concat(seq![x], rd);
        lemma_sum_in_concat(seq![x], rest);
        assert(flat(rep_pieces(d, u, s, k)) == x.1 + flat(rd));
        assert(flat(ps) == x.1 + flat(rest));
        assert((x.1 + flat(rest)).take(x.1.len() + o2) =~= x.1 + flat(rest).take(o2));
    }
}

/// A run of at most three copies is kept whole.
proof fn lemma_rep_short(c: Seq<char>, u: Seq<char>, s: int, k: nat)
    requires
        0 <= s <= c.len(),
        u.len() > 0,
        run_end(c, u, s) == c.len(),
        k + rep_count(c, u, s) <= KEPT,
    ensures
        flat(rep_pieces(c, u, s, k)) == c.subrange(s, c.len() as int),
    decreases c.len() - s,
{
    if unit_here(c, u, s) {
        let x = (u.len(), u);
        let rest = rep_pieces(c, u, s + u.len(), k + 1);
        lemma_rep_short(c, u, s + u.len(), k + 1);
        lemma_single(x);
        lemma_sum_in_concat(seq![x], rest);
        assert(c.subrange(s, c.len() as int) =~= u + c.subrange(s + u.len(), c.len() as int));
    } else {
        assert(c.subrange(s, c.len() as int) =~= Seq::<char>::empty());
    }
}

proof fn lemma_run_len(c: Seq<char>, u: Seq<char>, s: int)
    requires
        0 <= s <= c.len(),
        u.len() > 0,
    ensures
        run_end(c, u, s) - s == rep_count(c, u, s) * u.len(),
    decreases c.len() - s,
{
    if unit_here(c, u, s) {
        lemma_run_len(c, u, s + u.len());
        let n = rep_count(c, u, s + u.len());
        let w = u.len() as int;
        assert((n + 1) * w == n * w + w) by (nonlinear_arith);
        assert(rep_count(c, u, s) == n + 1);
        assert(run_end(c, u, s) == run_end(c, u, s + u.len()));
        assert(run_end(c, u, s) - s == (n + 1) * w);
        assert(rep_count(c, u, s) * u.len() == (n + 1) * w);
    } else {
        assert(rep_count(c, u, s) == 0);
        assert(rep_count(c, u, s) * u.len() == 0);
    }
}

pub open spec fn unit_width(r: Cleaner) -> int {
    if r is Pair {
        2
    } else {
        1
    }
}

pub open spec fn is_run_rule(r: Cleaner) -> bool {
    r is Filler || r is Astral || r is Pair
}

proof fn lemma_unit_width(r: Cleaner, c: Seq<char>, p: int)
    requires
        is_run_rule(r),
        0 <= p < c.len(),
    ensures
        unit_at(r, c, p).len() == 0 || unit_at(r, c, p).len() == unit_width(r),
{
}

/// Too short a text for a run of four copies is left as it is by a run rule.
proof fn lemma_scan_short(r: Cleaner, c: Seq<char>, p: int)
    requires
        is_run_rule(r),
        0 <= p <= c.len(),
        c.len() - p < THRESHOLD * unit_width(r),
    ensures
        flat(scan(r, c, p)) == c.subrange(p, c.len() as int),
    decreases c.len() - p,
{
    if p == c.len() {
        assert(c.subrange(p, p) =~= Seq::<char>::empty());
    } else {
        let u = unit_at(r, c, p);
        lemma_unit_width(r, c, p);
        if u.len() > 0 && rep_count(c, u, p) >= THRESHOLD {
            lemma_run_len(c, u, p);
            lemma_rep_pieces(c, u, p, 0);
            let n = rep_count(c, u, p) as int;
            let w = u.len() as int;
            assert(n * w >= 4 * w) by (nonlinear_arith)
                requires
                    n >= 4,
                    w > 0,
            ;
            assert(false);
        }
        let x = (1nat, seq![c[p]]);
        lemma_step(r, c, p);
        assert(step(r, c, p) == (1nat, seq![x]));
        lemma_scan_short(r, c, p + 1);
        lemma_single(x);
        lemma_sum_in_concat(seq![x], scan(r, c, p + 1));
        assert(c.subrange(p, c.len() as int) =~= seq![c[p]] + c.subrange(p + 1, c.len() as int));
    }
}

} // verus!

verus! {

/// Scanning the text cut at a boundary `q` emits what the whole scan emits
/// before that boundary.
proof fn lemma_scan_prefix(r: Cleaner, c: Seq<char>, q: int, p: int)
    requires
        0 <= p <= q <= c.len(),
        out_at(scan(r, c, p), q - p) is Some,
    ensures
        flat(scan(r, c.take(q), p)) == flat(scan(r, c, p)).take(out_at(scan(r, c, p), q - p)->0),
    decreases c.len() - p,
{
    let d = c.take(q);
    lemma_scan(r, c, p);
    if p == q {
        lemma_out_at_zero(scan(r, c, p));
        assert(flat(scan(r, c, p)).take(0) =~= Seq::<char>::empty());
        assert(scan(r, d, p) == Seq::<PieceV>::empty());
    } else {
        let st = step(r, c, p);
        let k = st.0 as int;
        let ps1 = st.1;
        lemma_step(r, c, p);
        let rest = scan(r, c, p + k);
        lemma_scan(r, c, p + k);
        assert(scan(r, c, p) == ps1 + rest);
        lemma_sum_in_concat(ps1, rest);
        let o = out_at(scan(r, c, p), q - p)->0;
        if p + k <= q {
            lemma_step_prefix(r, c, q, p);
            assert(scan(r, d, p) == ps1 + scan(r, d, p + k));
            lemma_out_at_concat(ps1, rest, q - p - k);
            lemma_scan_prefix(r, c, q, p + k);
            let o2 = out_at(rest, q - p - k)->0;
            lemma_out_at_within(rest, q - p - k);
            lemma_sum_in_concat(ps1, scan(r, d, p + k));
            assert((flat(ps1) + flat(rest)).take(flat(ps1).len() + o2) =~= flat(ps1) + flat(
                rest,
            ).take(o2));
        } else {
            lemma_out_at_front(ps1, rest, q - p);
            lemma_out_at_within(ps1, q - p);
            assert((flat(ps1) + flat(rest)).take(o) =~= flat(ps1).take(o));
            let u = unit_at(r, c, p);
            if !(is_run_rule(r) && u.len() > 0 && rep_count(c, u, p) >= THRESHOLD) {
                assert(ps1.len() == 1);
                assert(ps1 =~= seq![ps1[0]]);
                lemma_single(ps1[0]);
                lemma_inside_single(ps1[0], q - p);
                assert(false);
            }
            lemma_rep_pieces(c, u, p, 0);
            assert(ps1 == rep_pieces(c, u, p, 0));
            lemma_rep_cut(c, u, q, p, 0);
            lemma_has_at_prefix(c, q, p, u);
            if r is Pair {
                assert(d[p + 1] == c[p + 1]);
                assert(d.subrange(p, p + 2) =~= c.subrange(p, p + 2));
            }
            assert(unit_at(r, d, p) == u);
            lemma_rep_pieces(d, u, p, 0);
            if rep_count(d, u, p) >= THRESHOLD {
                assert(step(r, d, p) == ((q - p) as nat, rep_pieces(d, u, p, 0)));
                assert(scan(r, d, q) == Seq::<PieceV>::empty());
                assert(scan(r, d, p) =~= rep_pieces(d, u, p, 0) + Seq::<PieceV>::empty());
                lemma_sum_in_concat(rep_pieces(d, u, p, 0), Seq::<PieceV>::empty());
            } else {
                lemma_run_len(d, u, p);
                let n = rep_count(d, u, p) as int;
                let w = u.len() as int;
                assert(n * w < 4 * w) by (nonlinear_arith)
                    requires
                        n < 4,
                        w > 0,
                ;
                lemma_unit_width(r, c, p);
                lemma_scan_short(r, d, p);
                lemma_rep_short(d, u, p, 0);
                assert(d.subrange(p, d.len() as int) == flat(rep_pieces(d, u, p, 0)));
            }
        }
    }
}

/// One rule application commutes with cutting its text at a boundary.
proof fn lemma_rule_prefix(r: Cleaner, c: Seq<char>, q: int)
    requires
        0 <= q <= c.len(),
        out_at(scan(r, c, 0), q) is Some,
    ensures
        apply_rule(r, c.take(q)) == apply_rule(r, c).take(out_at(scan(r, c, 0), q)->0),
        out_at(scan(r, c, 0), q)->0 <= apply_rule(r, c).len(),
{
    lemma_scan_prefix(r, c, q, 0);
    lemma_out_at_within(scan(r, c, 0), q);
}

} // verus!

verus! {

proof fn lemma_normalize_push(done: Seq<Cleaner>, r: Cleaner, x: Seq<char>)
    ensures
        normalize(done.push(r), x) == apply_rule(r, normalize(done, x)),
    decreases done.len(),
{
    if done.len() == 0 {
        assert(done.push(r).drop_first() =~= Seq::<Cleaner>::empty());
        assert(done.push(r)[0] == r);
        assert(normalize(done.push(r), x) == normalize(
            done.push(r).drop_first(),
            apply_rule(r, x),
        ));
        assert(normalize(Seq::<Cleaner>::empty(), apply_rule(r, x)) == apply_rule(r, x));
        assert(normalize(done, x) == x);
    } else {
        assert(done.push(r).drop_first() =~= done.drop_first().push(r));
        assert(done.push(r)[0] == done[0]);
        lemma_normalize_push(done.drop_first(), r, apply_rule(done[0], x));
    }
}

/// Each boundary `(a, q)` ties the original text cut at `a`, put through the
/// rules `done`, to the current text cut at `q`.
pub open spec fn prefixes_agree(cuts: Cuts, t: Seq<char>, orig: Seq<char>, done: Seq<Cleaner>) -> bool {
    forall|j: int|
        0 <= j < cuts.len() ==> 0 <= #[trigger] cuts[j].0 <= orig.len() && 0 <= cuts[j].1
            <= t.len() && normalize(done, orig.take(cuts[j].0)) == t.take(cuts[j].1)
}

proof fn lemma_remap_prefix(
    cuts: Cuts,
    r: Cleaner,
    t: Seq<char>,
    orig: Seq<char>,
    done: Seq<Cleaner>,
)
    requires
        prefixes_agree(cuts, t, orig, done),
    ensures
        prefixes_agree(remap(cuts, scan(r, t, 0)), apply_rule(r, t), orig, done.push(r)),
    decreases cuts.len(),
{
    let ps = scan(r, t, 0);
    if cuts.len() > 0 {
        let d = cuts.drop_last();
        assert(prefixes_agree(d, t, orig, done)) by {
            assert forall|j: int| 0 <= j < d.len() implies 0 <= #[trigger] d[j].0 <= orig.len() && 0
                <= d[j].1 <= t.len() && normalize(done, orig.take(d[j].0)) == t.take(d[j].1) by {
                assert(d[j] == cuts[j]);
            }
        }
        lemma_remap_prefix(d, r, t, orig, done);
        let prev = remap(d, ps);
        let last = cuts[cuts.len() - 1];
        assert(cuts.last() == last);
        if out_at(ps, last.1) is Some {
            let o = out_at(ps, last.1)->0;
            lemma_rule_prefix(r, t, last.1);
            lemma_out_at_within(ps, last.1);
            lemma_normalize_push(done, r, orig.take(last.0));
            let next = prev.push((last.0, o));
            assert(remap(cuts, ps) == next);
            assert forall|j: int| 0 <= j < next.len() implies 0 <= #[trigger] next[j].0
                <= orig.len() && 0 <= next[j].1 <= apply_rule(r, t).len() && normalize(
                done.push(r),
                orig.take(next[j].0),
            ) == apply_rule(r, t).take(next[j].1) by {
                if j < prev.len() {
                    assert(next[j] == prev[j]);
                }
            }
        }
    }
}

proof fn lemma_pipeline_prefix(
    rules: Seq<Cleaner>,
    t: Seq<char>,
    cuts: Cuts,
    orig: Seq<char>,
    done: Seq<Cleaner>,
)
    requires
        prefixes_agree(cuts, t, orig, done),
    ensures
        prefixes_agree(pipeline(rules, t, cuts).1, pipeline(rules, t, cuts).0, orig, done + rules),
    decreases rules.len(),
{
    if rules.len() == 0 {
        assert(done + rules =~= done);
    } else {
        let r = rules[0];
        let ps = scan(r, t, 0);
        lemma_remap_prefix(cuts, r, t, orig, done);
        lemma_pipeline_prefix(rules.drop_first(), flat(ps), remap(cuts, ps), orig, done.push(r));
        assert(done.push(r) + rules.drop_first() =~= done + rules);
    }
}

/// Normalizing the original text up to any boundary gives exactly the
/// normalized text up to that boundary; in particular its length, in scalar
/// values, bytes or UTF-16 code units, is the boundary's entry in the
/// corresponding output table.
pub proof fn lemma_prefix_consistency(rules: Seq<Cleaner>, t: Seq<char>, i: int)
    requires
        0 <= i < boundaries(rules, t).len(),
    ensures
        normalize(rules, t.take(boundaries(rules, t)[i].0)) == normalize(rules, t).take(
            boundaries(rules, t)[i].1,
        ),
        normalize(rules, t.take(boundaries(rules, t)[i].0)).len() == boundaries(rules, t)[i].1,
{
    let init = initial_cuts(t);
    let none = Seq::<Cleaner>::empty();
    assert(prefixes_agree(init, t, t, none)) by {
        assert forall|j: int| 0 <= j < init.len() implies 0 <= #[trigger] init[j].0 <= t.len() && 0
            <= init[j].1 <= t.len() && normalize(none, t.take(init[j].0)) == t.take(init[j].1) by {}
    }
    lemma_pipeline_prefix(rules, t, init, t, none);
    assert(none + rules =~= rules);
    lemma_pipeline_text(rules, t, init);
}

} // verus!
