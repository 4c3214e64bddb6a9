//! One rule application described as a partition of the scanned text into
//! pieces: each piece consumes a run of characters and emits a replacement.
use vstd::prelude::*;

verus! {

/// A piece as a mathematical value: how many characters it consumes, and
/// what it emits in their place.
pub type PieceV = (nat, Seq<char>);

/// A piece of a rule application.
pub struct Piece {
    pub len: usize,
    pub out: Vec<char>,
}

impl View for Piece {
    type V = PieceV;

    open spec fn view(&self) -> PieceV {
        (self.len as nat, self.out@)
    }
}

pub open spec fn view_all(v: Seq<Piece>) -> Seq<PieceV> {
    v.map_values(|x: Piece| x@)
}

/// Number of characters that the pieces consume together.
pub open spec fn sum_in(ps: Seq<PieceV>) -> nat
    decreases ps.len(),
{
    if ps.len() == 0 {
        0
    } else {
        sum_in(ps.drop_last()) + ps.last().0
    }
}

/// The text that the pieces emit, in order.
pub open spec fn flat(ps: Seq<PieceV>) -> Seq<char>
    decreases ps.len(),
{
    if ps.len() == 0 {
        Seq::empty()
    } else {
        flat(ps.drop_last()) + ps.last().1
    }
}

/// Every piece consumes at least one character.
pub open spec fn advancing(ps: Seq<PieceV>) -> bool {
    forall|i: int| 0 <= i < ps.len() ==> #[trigger] ps[i].0 >= 1
}

/// Where position `q` of the consumed text lands in the emitted text, if it is
/// a boundary between two pieces; `None` where it falls inside a piece.
pub open spec fn out_at(ps: Seq<PieceV>, q: int) -> Option<int>
    decreases ps.len(),
{
    if q == sum_in(ps) {
        Some(flat(ps).len() as int)
    } else if ps.len() == 0 || q > sum_in(ps) {
        None
    } else {
        out_at(ps.drop_last(), q)
    }
}

pub proof fn lemma_single(x: PieceV)
    ensures
        sum_in(seq![x]) == x.0,
        flat(seq![x]) == x.1,
        advancing(seq![x]) <==> x.0 >= 1,
{
    let s = seq![x];
    assert(s.drop_last() =~= Seq::<PieceV>::empty());
    assert(sum_in(s.drop_last()) == 0);
    assert(flat(s.drop_last()) == Seq::<char>::empty());
    assert(Seq::<char>::empty() + x.1 =~= x.1);
    if x.0 >= 1 {
        assert forall|i: int| 0 <= i < s.len() implies #[trigger] s[i].0 >= 1 by {}
    } else {
        assert(s[0].0 < 1);
    }
}

pub proof fn lemma_sum_in_concat(a: Seq<PieceV>, b: Seq<PieceV>)
    ensures
        sum_in(a + b) == sum_in(a) + sum_in(b),
        flat(a + b) == flat(a) + flat(b),
    decreases b.len(),
{
    if b.len() == 0 {
        assert(a + b =~= a);
        assert(flat(a) + flat(b) =~= flat(a));
    } else {
        assert((a + b).drop_last() =~= a + b.drop_last());
        lemma_sum_in_concat(a, b.drop_last());
        assert(flat(a + b) =~= flat(a) + flat(b));
    }
}

pub proof fn lemma_sum_in_take(ps: Seq<PieceV>, i: int, j: int)
    requires
        0 <= i <= j <= ps.len(),
    ensures
        sum_in(ps.take(i)) <= sum_in(ps.take(j)),
        flat(ps.take(i)).len() <= flat(ps.take(j)).len(),
        advancing(ps) && i < j ==> sum_in(ps.take(i)) < sum_in(ps.take(j)),
    decreases j - i,
{
    if i < j {
        lemma_sum_in_take(ps, i, j - 1);
        assert(ps.take(j).drop_last() =~= ps.take(j - 1));
        assert(ps.take(j).last() == ps[j - 1]);
    }
}

/// A boundary lands within the emitted text.
pub proof fn lemma_out_at_within(ps: Seq<PieceV>, q: int)
    ensures
        out_at(ps, q) matches Some(o) ==> 0 <= o <= flat(ps).len(),
    decreases ps.len(),
{
    if q != sum_in(ps) && ps.len() > 0 && q <= sum_in(ps) {
        lemma_out_at_within(ps.drop_last(), q);
        assert(flat(ps) == flat(ps.drop_last()) + ps.last().1);
    }
}

/// The boundary after the first `j` pieces lands where those pieces' output ends;
/// a position strictly between two boundaries lands nowhere.
pub proof fn lemma_out_at(ps: Seq<PieceV>, j: int, q: int)
    requires
        advancing(ps),
        0 <= j <= ps.len(),
        sum_in(ps.take(j)) <= q,
        j == ps.len() || q < sum_in(ps.take(j + 1)),
    ensures
        out_at(ps, q) == (if q == sum_in(ps.take(j)) {
            Some(flat(ps.take(j)).len() as int)
        } else {
            None::<int>
        }),
    decreases ps.len(),
{
    if j == ps.len() {
        assert(ps.take(j) =~= ps);
    } else {
        lemma_sum_in_take(ps, j + 1, ps.len() as int);
        assert(ps.take(ps.len() as int) =~= ps);
        let d = ps.drop_last();
        assert(d.take(j) =~= ps.take(j));
        if j + 1 < ps.len() {
            assert(d.take(j + 1) =~= ps.take(j + 1));
        }
        assert(advancing(d)) by {
            assert forall|i: int| 0 <= i < d.len() implies #[trigger] d[i].0 >= 1 by {
                assert(d[i] == ps[i]);
            }
        }
        lemma_out_at(d, j, q);
    }
}

} // verus!
