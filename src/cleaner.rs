//! The rules of normalization and how one rule partitions a text into pieces.
use vstd::prelude::*;
use crate::chars::{astral, hex, host_char, is_astral, is_hex, is_space, in_host, in_url, space, url_char};
use crate::pieces::{advancing, flat, lemma_single, lemma_sum_in_concat, sum_in, view_all, Piece, PieceV};

verus! {

/// A rule of the normalization pipeline: what it matches, and what each match
/// becomes.
#[derive(Clone, Copy, Debug, PartialEq, Eq, Structural)]
pub enum Cleaner {
    /// A run of spaces, tabs, carriage returns and line feeds becomes one space.
    Whitespace,
    /// A run of four or more copies of the character keeps its first three.
    Filler(char),
    /// A run of four or more copies of one scalar value outside the Basic
    /// Multilingual Plane keeps its first three.
    Astral,
    /// A run of four or more copies of one group of two different characters
    /// keeps its first three groups.
    Pair,
    /// A run of exactly forty hexadecimal digits becomes `hash` and its first six.
    Hash,
    /// A web address becomes `link to` and its host.
    Link,
}

/// Copies of a unit that a run keeps.
pub const KEPT: usize = 3;

/// Copies of a unit from which a run is shortened.
pub const THRESHOLD: usize = 4;

/// Digits of a digest token.
pub const DIGEST_LEN: usize = 40;

/// Digits of a digest token that are spoken.
pub const DIGEST_SHOWN: usize = 6;

pub open spec fn space_run(c: Seq<char>, p: int) -> nat
    decreases c.len() - p,
{
    if 0 <= p < c.len() && is_space(c[p]) {
        1 + space_run(c, p + 1)
    } else {
        0
    }
}

pub open spec fn hex_run(c: Seq<char>, p: int) -> nat
    decreases c.len() - p,
{
    if 0 <= p < c.len() && is_hex(c[p]) {
        1 + hex_run(c, p + 1)
    } else {
        0
    }
}

pub open spec fn url_run(c: Seq<char>, p: int) -> nat
    decreases c.len() - p,
{
    if 0 <= p < c.len() && in_url(c[p]) {
        1 + url_run(c, p + 1)
    } else {
        0
    }
}

pub open spec fn host_run(c: Seq<char>, p: int) -> nat
    decreases c.len() - p,
{
    if 0 <= p < c.len() && in_host(c[p]) {
        1 + host_run(c, p + 1)
    } else {
        0
    }
}

/// `lit` stands in `c` at position `p`.
pub open spec fn has_at(c: Seq<char>, p: int, lit: Seq<char>) -> bool {
    0 <= p && p + lit.len() <= c.len() && c.subrange(p, p + lit.len()) == lit
}

pub open spec fn https_lit() -> Seq<char> {
    seq!['h', 't', 't', 'p', 's', ':', '/', '/']
}

pub open spec fn http_lit() -> Seq<char> {
    seq!['h', 't', 't', 'p', ':', '/', '/']
}

pub open spec fn www_lit() -> Seq<char> {
    seq!['w', 'w', 'w', '.']
}

pub open spec fn hash_lit() -> Seq<char> {
    seq!['h', 'a', 's', 'h', ' ']
}

pub open spec fn link_lit() -> Seq<char> {
    seq!['l', 'i', 'n', 'k', ' ', 't', 'o', ' ']
}

/// Length of the scheme that a web address at `p` starts with.
pub open spec fn scheme_len(c: Seq<char>, p: int) -> nat {
    if has_at(c, p, https_lit()) {
        8
    } else if has_at(c, p, http_lit()) {
        7
    } else {
        0
    }
}

/// The unit whose repetitions a run rule counts at `p` (empty where there is none).
pub open spec fn unit_at(r: Cleaner, c: Seq<char>, p: int) -> Seq<char> {
    match r {
        Cleaner::Filler(f) => if c[p] == f {
            seq![f]
        } else {
            Seq::empty()
        },
        Cleaner::Astral => if is_astral(c[p]) {
            seq![c[p]]
        } else {
            Seq::empty()
        },
        Cleaner::Pair => if p < c.len() - 1 && c[p] != c[p + 1] {
            c.subrange(p, p + 2)
        } else {
            Seq::empty()
        },
        _ => Seq::empty(),
    }
}

pub open spec fn unit_here(c: Seq<char>, u: Seq<char>, q: int) -> bool {
    u.len() > 0 && has_at(c, q, u)
}

/// Copies of `u` that stand one after another from `q`.
pub open spec fn rep_count(c: Seq<char>, u: Seq<char>, q: int) -> nat
    decreases c.len() - q,
{
    if unit_here(c, u, q) {
        1 + rep_count(c, u, q + u.len())
    } else {
        0
    }
}

/// Where the copies of `u` that stand one after another from `q` end.
pub open spec fn run_end(c: Seq<char>, u: Seq<char>, q: int) -> int
    decreases c.len() - q,
{
    if unit_here(c, u, q) {
        run_end(c, u, q + u.len())
    } else {
        q
    }
}

/// One piece per copy of `u` from `q`, where `k` copies precede `q`: the first
/// copies are kept, the others are dropped.
pub open spec fn rep_pieces(c: Seq<char>, u: Seq<char>, q: int, k: nat) -> Seq<PieceV>
    decreases c.len() - q,
{
    if unit_here(c, u, q) {
        seq![(u.len(), if k < KEPT { u } else { Seq::<char>::empty() })] + rep_pieces(
            c,
            u,
            q + u.len(),
            k + 1,
        )
    } else {
        Seq::empty()
    }
}

/// What a rule makes of the text at `p`: how many characters it consumes
/// there, and the pieces that stand for them.
pub open spec fn step(r: Cleaner, c: Seq<char>, p: int) -> (nat, Seq<PieceV>) {
    let plain = (1nat, seq![(1nat, seq![c[p]])]);
    match r {
        Cleaner::Whitespace => if is_space(c[p]) {
            let n = space_run(c, p);
            (n, seq![(n, seq![' '])])
        } else {
            plain
        },
        Cleaner::Hash => if is_hex(c[p]) {
            let n = hex_run(c, p);
            (
                n,
                seq![
                    (
                        n,
                        if n == DIGEST_LEN {
                            hash_lit() + c.subrange(p, p + DIGEST_SHOWN)
                        } else {
                            c.subrange(p, p + n)
                        },
                    ),
                ],
            )
        } else {
            plain
        },
        Cleaner::Link => {
            let h = scheme_len(c, p);
            if h > 0 || has_at(c, p, www_lit()) {
                let n = h + url_run(c, p + h);
                (n, seq![(n, link_lit() + c.subrange(p + h, p + h + host_run(c, p + h)))])
            } else {
                plain
            }
        },
        _ => {
            let u = unit_at(r, c, p);
            if u.len() > 0 && rep_count(c, u, p) >= THRESHOLD {
                ((run_end(c, u, p) - p) as nat, rep_pieces(c, u, p, 0))
            } else {
                plain
            }
        },
    }
}

/// The pieces into which a rule partitions `c` from `p` on, scanning left to right.
pub open spec fn scan(r: Cleaner, c: Seq<char>, p: int) -> Seq<PieceV>
    decreases c.len() - p,
{
    if 0 <= p < c.len() {
        let s = step(r, c, p);
        if s.0 > 0 && p + s.0 <= c.len() {
            s.1 + scan(r, c, p + s.0)
        } else {
            s.1
        }
    } else {
        Seq::empty()
    }
}

/// The text after one application of a rule.
pub open spec fn apply_rule(r: Cleaner, c: Seq<char>) -> Seq<char> {
    flat(scan(r, c, 0))
}

pub proof fn lemma_runs(c: Seq<char>, p: int)
    requires
        0 <= p <= c.len(),
    ensures
        space_run(c, p) <= c.len() - p,
        hex_run(c, p) <= c.len() - p,
        host_run(c, p) <= url_run(c, p) <= c.len() - p,
    decreases c.len() - p,
{
    if p < c.len() {
        lemma_runs(c, p + 1);
    }
}

pub proof fn lemma_rep_pieces(c: Seq<char>, u: Seq<char>, q: int, k: nat)
    requires
        0 <= q <= c.len(),
        u.len() > 0,
    ensures
        q <= run_end(c, u, q) <= c.len(),
        sum_in(rep_pieces(c, u, q, k)) == run_end(c, u, q) - q,
        advancing(rep_pieces(c, u, q, k)),
        rep_count(c, u, q) > 0 ==> run_end(c, u, q) > q,
    decreases c.len() - q,
{
    if unit_here(c, u, q) {
        let head = seq![(u.len(), if k < KEPT { u } else { Seq::<char>::empty() })];
        let rest = rep_pieces(c, u, q + u.len(), k + 1);
        lemma_rep_pieces(c, u, q + u.len(), k + 1);
        lemma_sum_in_concat(head, rest);
        lemma_single((u.len(), if k < KEPT { u } else { Seq::<char>::empty() }));
        let all = head + rest;
        assert forall|i: int| 0 <= i < all.len() implies #[trigger] all[i].0 >= 1 by {
            if i > 0 {
                assert(all[i] == rest[i - 1]);
            }
        }
    }
}

/// A step consumes at least one character and no more than are left, and its
/// pieces consume exactly what it consumes.
pub proof fn lemma_step(r: Cleaner, c: Seq<char>, p: int)
    requires
        0 <= p < c.len(),
    ensures
        step(r, c, p).0 >= 1,
        p + step(r, c, p).0 <= c.len(),
        sum_in(step(r, c, p).1) == step(r, c, p).0,
        advancing(step(r, c, p).1),
{
    lemma_single((1nat, seq![c[p]]));
    lemma_runs(c, p);
    match r {
        Cleaner::Whitespace => {
            lemma_single((space_run(c, p), seq![' ']));
        },
        Cleaner::Hash => {
            let n = hex_run(c, p);
            let out = if n == DIGEST_LEN {
                hash_lit() + c.subrange(p, p + DIGEST_SHOWN)
            } else {
                c.subrange(p, p + n)
            };
            lemma_single((n, out));
        },
        Cleaner::Link => {
            let h = scheme_len(c, p);
            if h > 0 || has_at(c, p, www_lit()) {
                if h == 0 {
                    assert(c.subrange(p, p + 4)[0] == 'w');
                    assert(in_url(c[p]));
                } else {
                    lemma_runs(c, p + h);
                }
                let n = h + url_run(c, p + h);
                lemma_single((n, link_lit() + c.subrange(p + h, p + h + host_run(c, p + h))));
            }
        },
        _ => {
            let u = unit_at(r, c, p);
            if u.len() > 0 && rep_count(c, u, p) >= THRESHOLD {
                lemma_rep_pieces(c, u, p, 0);
            }
        },
    }
}

/// The pieces of a scan consume exactly what is left of the text.
pub proof fn lemma_scan(r: Cleaner, c: Seq<char>, p: int)
    requires
        0 <= p <= c.len(),
    ensures
        sum_in(scan(r, c, p)) == c.len() - p,
        advancing(scan(r, c, p)),
    decreases c.len() - p,
{
    if p < c.len() {
        let (k, ps) = step(r, c, p);
        lemma_step(r, c, p);
        lemma_scan(r, c, p + k);
        let rest = scan(r, c, p + k);
        lemma_sum_in_concat(ps, rest);
        let all = ps + rest;
        assert forall|i: int| 0 <= i < all.len() implies #[trigger] all[i].0 >= 1 by {
            if i < ps.len() {
                assert(all[i] == ps[i]);
            } else {
                assert(all[i] == rest[i - ps.len()]);
            }
        }
    }
}

} // verus!

verus! {

fn count_spaces(c: &Vec<char>, p: usize) -> (n: usize)
    requires
        p <= c@.len(),
    ensures
        n == space_run(c@, p as int),
        p + n <= c@.len(),
{
    let mut q = p;
    while q < c.len() && space(c[q])
        invariant
            p <= q <= c@.len(),
            space_run(c@, p as int) == (q - p) + space_run(c@, q as int),
        decreases c@.len() - q,
    {
        q = q + 1;
    }
    q - p
}

fn count_hex(c: &Vec<char>, p: usize) -> (n: usize)
    requires
        p <= c@.len(),
    ensures
        n == hex_run(c@, p as int),
        p + n <= c@.len(),
{
    let mut q = p;
    while q < c.len() && hex(c[q])
        invariant
            p <= q <= c@.len(),
            hex_run(c@, p as int) == (q - p) + hex_run(c@, q as int),
        decreases c@.len() - q,
    {
        q = q + 1;
    }
    q - p
}

fn count_url(c: &Vec<char>, p: usize) -> (n: usize)
    requires
        p <= c@.len(),
    ensures
        n == url_run(c@, p as int),
        p + n <= c@.len(),
{
    let mut q = p;
    while q < c.len() && url_char(c[q])
        invariant
            p <= q <= c@.len(),
            url_run(c@, p as int) == (q - p) + url_run(c@, q as int),
        decreases c@.len() - q,
    {
        q = q + 1;
    }
    q - p
}

fn count_host(c: &Vec<char>, p: usize) -> (n: usize)
    requires
        p <= c@.len(),
    ensures
        n == host_run(c@, p as int),
        p + n <= c@.len(),
{
    let mut q = p;
    while q < c.len() && host_char(c[q])
        invariant
            p <= q <= c@.len(),
            host_run(c@, p as int) == (q - p) + host_run(c@, q as int),
        decreases c@.len() - q,
    {
        q = q + 1;
    }
    q - p
}

/// Whether `lit` stands in `c` at `p`.
fn has_lit(c: &Vec<char>, p: usize, lit: &Vec<char>) -> (r: bool)
    ensures
        r == has_at(c@, p as int, lit@),
{
    if p > c.len() || lit.len() > c.len() - p {
        return false;
    }
    let n = c.len();
    let mut i: usize = 0;
    while i < lit.len()
        invariant
            n == c@.len(),
            p + lit@.len() <= c@.len(),
            i <= lit@.len(),
            forall|j: int| 0 <= j < i ==> c@[p + j] == lit@[j],
        decreases lit@.len() - i,
    {
        if c[p + i] != lit[i] {
            proof {
                assert(c@.subrange(p as int, p + lit@.len())[i as int] != lit@[i as int]);
            }
            return false;
        }
        i = i + 1;
    }
    proof {
        assert(c@.subrange(p as int, p + lit@.len()) =~= lit@);
    }
    true
}

/// Appends `c[a..b]` to `out`.
fn copy_range(c: &Vec<char>, a: usize, b: usize, out: &mut Vec<char>)
    requires
        a <= b <= c@.len(),
    ensures
        final(out)@ == old(out)@ + c@.subrange(a as int, b as int),
{
    let mut i = a;
    while i < b
        invariant
            a <= i <= b <= c@.len(),
            out@ == old(out)@ + c@.subrange(a as int, i as int),
        decreases b - i,
    {
        out.push(c[i]);
        i = i + 1;
        proof {
            assert(out@ =~= old(out)@ + c@.subrange(a as int, i as int));
        }
    }
}

fn unit_of(r: Cleaner, c: &Vec<char>, p: usize) -> (u: Vec<char>)
    requires
        p < c@.len(),
    ensures
        u@ == unit_at(r, c@, p as int),
{
    match r {
        Cleaner::Filler(f) => if c[p] == f {
            let u = vec![f];
            proof {
                assert(u@ =~= seq![f]);
            }
            u
        } else {
            Vec::new()
        },
        Cleaner::Astral => if astral(c[p]) {
            let u = vec![c[p]];
            proof {
                assert(u@ =~= seq![c@[p as int]]);
            }
            u
        } else {
            Vec::new()
        },
        Cleaner::Pair => if p < c.len() - 1 && c[p] != c[p + 1] {
            let mut u = Vec::new();
            copy_range(c, p, p + 2, &mut u);
            proof {
                assert(u@ =~= c@.subrange(p as int, p + 2));
            }
            u
        } else {
            Vec::new()
        },
        _ => Vec::new(),
    }
}

/// Appends the pieces of a run of copies of `u` from `p`; returns where the run ends.
fn push_run(c: &Vec<char>, u: &Vec<char>, p: usize, out: &mut Vec<Piece>) -> (e: usize)
    requires
        p <= c@.len(),
        u@.len() > 0,
    ensures
        e == run_end(c@, u@, p as int),
        view_all(final(out)@) == view_all(old(out)@) + rep_pieces(c@, u@, p as int, 0),
{
    let n = c.len();
    let mut q = p;
    let mut k: usize = 0;
    proof {
        assert(view_all(out@) + rep_pieces(c@, u@, p as int, 0) =~= view_all(old(out)@)
            + rep_pieces(c@, u@, p as int, 0));
    }
    while has_lit(c, q, u)
        invariant
            n == c@.len(),
            p <= q <= c@.len(),
            u@.len() > 0,
            k <= q,
            run_end(c@, u@, p as int) == run_end(c@, u@, q as int),
            view_all(out@) + rep_pieces(c@, u@, q as int, k as nat) == view_all(old(out)@)
                + rep_pieces(c@, u@, p as int, 0),
        decreases c@.len() - q,
    {
        let piece_out = if k < KEPT {
            u.clone()
        } else {
            Vec::new()
        };
        let ghost before = view_all(out@);
        let ghost head = (u@.len(), if k < KEPT { u@ } else { Seq::<char>::empty() });
        out.push(Piece { len: u.len(), out: piece_out });
        proof {
            assert(view_all(out@) =~= before.push(head));
            assert(rep_pieces(c@, u@, q as int, k as nat) =~= seq![head] + rep_pieces(
                c@,
                u@,
                q + u@.len(),
                (k + 1) as nat,
            ));
            assert(view_all(out@) + rep_pieces(c@, u@, q + u@.len(), (k + 1) as nat) =~= before
                + rep_pieces(c@, u@, q as int, k as nat));
        }
        q = q + u.len();
        k = k + 1;
    }
    proof {
        assert(view_all(out@) =~= view_all(out@) + rep_pieces(c@, u@, q as int, k as nat));
    }
    q
}

} // verus!

verus! {

fn push_plain(c: &Vec<char>, p: usize, out: &mut Vec<Piece>) -> (k: usize)
    requires
        p < c@.len(),
    ensures
        k == 1,
        view_all(final(out)@) == view_all(old(out)@) + seq![(1nat, seq![c@[p as int]])],
{
    let o = vec![c[p]];
    out.push(Piece { len: 1, out: o });
    proof {
        assert(o@ =~= seq![c@[p as int]]);
        assert(view_all(out@) =~= view_all(old(out)@) + seq![(1nat, seq![c@[p as int]])]);
    }
    1
}

fn push_one(out: &mut Vec<Piece>, len: usize, o: Vec<char>)
    ensures
        view_all(final(out)@) == view_all(old(out)@) + seq![(len as nat, o@)],
{
    let ghost v = o@;
    out.push(Piece { len, out: o });
    proof {
        assert(view_all(out@) =~= view_all(old(out)@) + seq![(len as nat, v)]);
    }
}

/// Appends what rule `r` makes of the text at `p`; returns how many characters
/// that consumes.
fn step_exec(r: Cleaner, c: &Vec<char>, p: usize, out: &mut Vec<Piece>) -> (k: usize)
    requires
        p < c@.len(),
    ensures
        k == step(r, c@, p as int).0,
        view_all(final(out)@) == view_all(old(out)@) + step(r, c@, p as int).1,
{
    let len = c.len();
    proof {
        lemma_runs(c@, p as int);
    }
    match r {
        Cleaner::Whitespace => {
            if space(c[p]) {
                let n = count_spaces(c, p);
                let o = vec![' '];
                proof {
                    assert(o@ =~= seq![' ']);
                }
                push_one(out, n, o);
                n
            } else {
                push_plain(c, p, out)
            }
        },
        Cleaner::Hash => {
            if hex(c[p]) {
                let n = count_hex(c, p);
                let mut o: Vec<char> = Vec::new();
                if n == DIGEST_LEN {
                    o = vec!['h', 'a', 's', 'h', ' '];
                    copy_range(c, p, p + DIGEST_SHOWN, &mut o);
                    proof {
                        assert(o@ =~= hash_lit() + c@.subrange(p as int, p + DIGEST_SHOWN));
                    }
                } else {
                    copy_range(c, p, p + n, &mut o);
                    proof {
                        assert(o@ =~= c@.subrange(p as int, p + n));
                    }
                }
                push_one(out, n, o);
                n
            } else {
                push_plain(c, p, out)
            }
        },
        Cleaner::Link => {
            let https = vec!['h', 't', 't', 'p', 's', ':', '/', '/'];
            let http = vec!['h', 't', 't', 'p', ':', '/', '/'];
            let www = vec!['w', 'w', 'w', '.'];
            proof {
                assert(https@ =~= https_lit());
                assert(http@ =~= http_lit());
                assert(www@ =~= www_lit());
            }
            let h: usize = if has_lit(c, p, &https) {
                8
            } else if has_lit(c, p, &http) {
                7
            } else {
                0
            };
            if h > 0 || has_lit(c, p, &www) {
                proof {
                    lemma_runs(c@, p + h);
                }
                let n = h + count_url(c, p + h);
                let hn = count_host(c, p + h);
                let mut o = vec!['l', 'i', 'n', 'k', ' ', 't', 'o', ' '];
                proof {
                    assert(o@ =~= link_lit());
                }
                copy_range(c, p + h, p + h + hn, &mut o);
                push_one(out, n, o);
                n
            } else {
                push_plain(c, p, out)
            }
        },
        _ => {
            let u = unit_of(r, c, p);
            if u.len() > 0 {
                let mut q = p;
                let mut reps: usize = 0;
                let n = c.len();
                while reps < THRESHOLD && has_lit(c, q, &u)
                    invariant
                        n == c@.len(),
                        u@.len() > 0,
                        p <= q <= c@.len(),
                        reps <= THRESHOLD,
                        rep_count(c@, u@, p as int) == reps + rep_count(c@, u@, q as int),
                    decreases c@.len() - q,
                {
                    q = q + u.len();
                    reps = reps + 1;
                }
                if reps >= THRESHOLD {
                    let e = push_run(c, &u, p, out);
                    proof {
                        lemma_rep_pieces(c@, u@, p as int, 0);
                    }
                    e - p
                } else {
                    push_plain(c, p, out)
                }
            } else {
                push_plain(c, p, out)
            }
        },
    }
}

/// The pieces into which rule `r` partitions `c`.
pub fn scan_exec(r: Cleaner, c: &Vec<char>) -> (ps: Vec<Piece>)
    ensures
        view_all(ps@) == scan(r, c@, 0),
{
    let mut ps: Vec<Piece> = Vec::new();
    let mut p: usize = 0;
    while p < c.len()
        invariant
            p <= c@.len(),
            view_all(ps@) + scan(r, c@, p as int) == scan(r, c@, 0),
        decreases c@.len() - p,
    {
        let ghost before = view_all(ps@);
        proof {
            lemma_step(r, c@, p as int);
        }
        let k = step_exec(r, c, p, &mut ps);
        proof {
            assert(before + scan(r, c@, p as int) =~= view_all(ps@) + scan(r, c@, p + k));
        }
        p = p + k;
    }
    proof {
        assert(view_all(ps@) + scan(r, c@, p as int) =~= view_all(ps@));
    }
    ps
}

/// The text that the pieces emit.
pub fn flat_exec(ps: &Vec<Piece>) -> (r: Vec<char>)
    ensures
        r@ == flat(view_all(ps@)),
{
    let mut r: Vec<char> = Vec::new();
    let mut j: usize = 0;
    while j < ps.len()
        invariant
            j <= ps@.len(),
            r@ == flat(view_all(ps@).take(j as int)),
        decreases ps@.len() - j,
    {
        let mut i: usize = 0;
        let ghost before = r@;
        while i < ps[j].out.len()
            invariant
                j < ps@.len(),
                i <= ps@[j as int].out@.len(),
                r@ == before + ps@[j as int].out@.take(i as int),
            decreases ps@[j as int].out@.len() - i,
        {
            r.push(ps[j].out[i]);
            i = i + 1;
            proof {
                assert(r@ =~= before + ps@[j as int].out@.take(i as int));
            }
        }
        proof {
            let v = view_all(ps@);
            assert(v.take(j + 1).drop_last() =~= v.take(j as int));
            assert(ps@[j as int].out@.take(i as int) =~= ps@[j as int].out@);
        }
        j = j + 1;
    }
    proof {
        assert(view_all(ps@).take(j as int) =~= view_all(ps@));
    }
    r
}

} // verus!
