//! The word of moves made so far, kept freely reduced: a move right after its
//! inverse cancels it instead of being recorded.

use vstd::prelude::*;
use crate::group::{Direction, inverse_of, code_of, generator_entries, lemma_inverse_cancels};
use crate::matrix::{
    mat_canonical, mat_identity, mat_product, lemma_mat_product_canonical, lemma_mat_associative,
    lemma_mat_identity_right,
};
use crate::poly::canonical;

verus! {

/// `w` followed by the move `d`, reduced: when `w` ends with the inverse of
/// `d` the two cancel.
pub open spec fn push_reduced(w: Seq<Direction>, d: Direction) -> Seq<Direction> {
    if w.len() > 0 && w.last() == inverse_of(d) {
        w.drop_last()
    } else {
        w.push(d)
    }
}

/// The word recorded after making `moves` in order, starting from the empty word.
pub open spec fn reduce(moves: Seq<Direction>) -> Seq<Direction>
    decreases moves.len(),
{
    if moves.len() == 0 {
        seq![]
    } else {
        push_reduced(reduce(moves.drop_last()), moves.last())
    }
}

/// One more move updates the recorded word as `push_reduced` says, so a
/// `Word` that holds `reduce(moves)` holds `reduce(moves.push(d))` after
/// `push(d)`.
pub proof fn lemma_reduce_push(moves: Seq<Direction>, d: Direction)
    ensures
        reduce(moves.push(d)) == push_reduced(reduce(moves), d),
{
    assert(moves.push(d).drop_last() =~= moves);
}

/// No move of `w` is directly followed by its inverse.
pub open spec fn is_reduced(w: Seq<Direction>) -> bool {
    forall|i: int| 0 <= i < w.len() - 1 ==> #[trigger] w[i + 1] != inverse_of(w[i])
}

/// Positions `i` and `i + 1` of `w` hold a move and its inverse.
pub open spec fn cancellable_at(w: Seq<Direction>, i: int) -> bool {
    0 <= i && i + 1 < w.len() && w[i + 1] == inverse_of(w[i])
}

/// `w` with positions `i` and `i + 1` removed.
pub open spec fn cancel_at(w: Seq<Direction>, i: int) -> Seq<Direction> {
    w.take(i) + w.skip(i + 2)
}

/// `t` is what remains of `s` after removing, in turn, the adjacent inverse
/// pairs at the positions listed in `steps`.
pub open spec fn cancels_to(s: Seq<Direction>, t: Seq<Direction>, steps: Seq<int>) -> bool
    decreases steps.len(),
{
    if steps.len() == 0 {
        s == t
    } else {
        cancellable_at(s, steps[0]) && cancels_to(cancel_at(s, steps[0]), t, steps.drop_first())
    }
}

/// The one-letter codes of the moves of `w`, in order.
pub open spec fn word_text(w: Seq<Direction>) -> Seq<char> {
    w.map_values(|d: Direction| code_of(d))
}

proof fn lemma_cancels_push(s: Seq<Direction>, t: Seq<Direction>, steps: Seq<int>, d: Direction)
    requires
        cancels_to(s, t, steps),
    ensures
        cancels_to(s.push(d), t.push(d), steps),
    decreases steps.len(),
{
    if steps.len() > 0 {
        let i = steps[0];
        assert(cancel_at(s.push(d), i) =~= cancel_at(s, i).push(d));
        lemma_cancels_push(cancel_at(s, i), t, steps.drop_first(), d);
    }
}

proof fn lemma_cancels_extend(s: Seq<Direction>, t: Seq<Direction>, steps: Seq<int>, i: int)
    requires
        cancels_to(s, t, steps),
        cancellable_at(t, i),
    ensures
        cancels_to(s, cancel_at(t, i), steps.push(i)),
    decreases steps.len(),
{
    assert(steps.push(i).len() > 0);
    if steps.len() == 0 {
        assert(steps.push(i)[0] == i);
        assert(steps.push(i).drop_first() =~= Seq::<int>::empty());
        assert(cancels_to(cancel_at(s, i), cancel_at(t, i), Seq::<int>::empty()));
    } else {
        assert(steps.push(i)[0] == steps[0]);
        lemma_cancels_extend(cancel_at(s, steps[0]), t, steps.drop_first(), i);
        assert(steps.push(i).drop_first() =~= steps.drop_first().push(i));
        assert(cancels_to(
            cancel_at(s, steps[0]),
            cancel_at(t, i),
            steps.push(i).drop_first(),
        ));
    }
}

/// The positions at which pairs are removed to get from `moves` to `reduce(moves)`.
proof fn reduction_steps(moves: Seq<Direction>) -> (steps: Seq<int>)
    ensures
        cancels_to(moves, reduce(moves), steps),
    decreases moves.len(),
{
    if moves.len() == 0 {
        assert(moves =~= seq![]);
        seq![]
    } else {
        let prev = moves.drop_last();
        let d = moves.last();
        let r = reduce(prev);
        let steps = reduction_steps(prev);
        lemma_cancels_push(prev, r, steps, d);
        assert(prev.push(d) =~= moves);
        if r.len() > 0 && r.last() == inverse_of(d) {
            let i = r.len() - 1;
            assert(cancellable_at(r.push(d), i));
            assert(cancel_at(r.push(d), i) =~= r.drop_last());
            lemma_cancels_extend(moves, r.push(d), steps, i);
            steps.push(i)
        } else {
            steps
        }
    }
}

proof fn lemma_push_reduced(w: Seq<Direction>, d: Direction)
    requires
        is_reduced(w),
    ensures
        is_reduced(push_reduced(w, d)),
{
    let r = push_reduced(w, d);
    if w.len() > 0 && w.last() == inverse_of(d) {
        assert forall|i: int| 0 <= i < r.len() - 1 implies #[trigger] r[i + 1] != inverse_of(r[i]) by {
            assert(w[i + 1] != inverse_of(w[i]));
        }
    } else {
        assert forall|i: int| 0 <= i < r.len() - 1 implies #[trigger] r[i + 1] != inverse_of(r[i]) by {
            if i < w.len() - 1 {
                assert(w[i + 1] != inverse_of(w[i]));
            }
        }
    }
}

/// The recorded word is the free reduction of the moves made: it has no
/// adjacent inverse pair, and it is what remains of the moves after removing
/// adjacent inverse pairs one at a time.
pub proof fn lemma_free_reduction(moves: Seq<Direction>)
    ensures
        is_reduced(reduce(moves)),
        exists|steps: Seq<int>| cancels_to(moves, reduce(moves), steps),
    decreases moves.len(),
{
    let steps = reduction_steps(moves);
    if moves.len() > 0 {
        lemma_free_reduction(moves.drop_last());
        lemma_push_reduced(reduce(moves.drop_last()), moves.last());
    }
}

/// The product of the generator matrices of the moves of `w`, in order.
pub open spec fn word_product(w: Seq<Direction>) -> Seq<Seq<(int, int)>>
    decreases w.len(),
{
    if w.len() == 0 {
        mat_identity()
    } else {
        mat_product(word_product(w.drop_last()), generator_entries(w.last()))
    }
}

proof fn lemma_word_product_canonical(w: Seq<Direction>)
    ensures
        mat_canonical(word_product(w)),
    decreases w.len(),
{
    if w.len() == 0 {
        assert forall|n: int| 0 <= n < 9 implies canonical(#[trigger] mat_identity()[n]) by {}
    } else {
        lemma_word_product_canonical(w.drop_last());
        assert forall|n: int| 0 <= n < 9 implies canonical(#[trigger] generator_entries(w.last())[n]) by {}
        lemma_mat_product_canonical(word_product(w.drop_last()), generator_entries(w.last()));
    }
}

/// The recorded word stands for the same matrix as the moves made: the
/// product of the generators along the reduced word equals the product
/// along every move, for every value of `q`.
pub proof fn lemma_reduced_word_product(moves: Seq<Direction>)
    ensures
        word_product(reduce(moves)) == word_product(moves),
    decreases moves.len(),
{
    if moves.len() > 0 {
        let prev = moves.drop_last();
        let d = moves.last();
        let r = reduce(prev);
        lemma_reduced_word_product(prev);
        if r.len() > 0 && r.last() == inverse_of(d) {
            let rest = r.drop_last();
            let gi = generator_entries(inverse_of(d));
            let g = generator_entries(d);
            lemma_word_product_canonical(rest);
            assert forall|n: int| 0 <= n < 9 implies canonical(#[trigger] gi[n]) by {}
            assert forall|n: int| 0 <= n < 9 implies canonical(#[trigger] g[n]) by {}
            lemma_mat_associative(word_product(rest), gi, g);
            lemma_inverse_cancels(inverse_of(d));
            assert(inverse_of(inverse_of(d)) == d);
            lemma_mat_identity_right(word_product(rest));
        } else {
            assert(r.push(d).drop_last() =~= r);
        }
    }
}

/// Solved: at least one move is recorded and every parameter's matrix is at
/// the identity (`at_identity[k]` for the k-th parameter).
pub open spec fn solved(w: Seq<Direction>, at_identity: Seq<bool>) -> bool {
    w.len() > 0 && forall|k: int| 0 <= k < at_identity.len() ==> at_identity[k]
}

/// Before any move, or after a reset, the puzzle is not solved, whatever the
/// matrices are.
pub proof fn lemma_not_solved_without_moves(at_identity: Seq<bool>)
    ensures
        !solved(reduce(Seq::<Direction>::empty()), at_identity),
{
}

/// No generator is the identity matrix, and after a single move the puzzle is
/// not solved unless that move's matrix is at the identity for every parameter.
pub proof fn lemma_not_solved_after_one_move(d: Direction, at_identity: Seq<bool>, k: int)
    requires
        0 <= k < at_identity.len(),
        !at_identity[k],
    ensures
        generator_entries(d) != mat_identity(),
        reduce(seq![d]) == seq![d],
        !solved(reduce(seq![d]), at_identity),
{
    let id0 = mat_identity()[0];
    let g0 = generator_entries(d)[0];
    assert(id0 == seq![(0int, 1int)]);
    assert(g0.len() != 1 || g0[0] != id0[0]);
    assert(generator_entries(d)[0] != mat_identity()[0]);
    assert(seq![d].drop_last().len() == 0);
    assert(reduce(seq![d].drop_last()) == Seq::<Direction>::empty());
    assert(seq![d].last() == d);
    assert(Seq::<Direction>::empty().push(d) =~= seq![d]);
}

/// The freely reduced word of the moves made so far.
#[derive(Debug)]
pub struct Word {
    moves: Vec<Direction>,
}

impl View for Word {
    type V = Seq<Direction>;

    closed spec fn view(&self) -> Seq<Direction> {
        self.moves@
    }
}

/// The code of a move as a string of one letter.
fn code_text(d: Direction) -> (r: &'static str)
    ensures
        r@ == seq![code_of(d)],
{
    match d {
        Direction::North => {
            proof {
                reveal_strlit("N");
            }
            "N"
        },
        Direction::South => {
            proof {
                reveal_strlit("S");
            }
            "S"
        },
        Direction::East => {
            proof {
                reveal_strlit("E");
            }
            "E"
        },
        Direction::West => {
            proof {
                reveal_strlit("W");
            }
            "W"
        },
    }
}

impl Word {
    pub open spec fn wf(&self) -> bool {
        is_reduced(self@)
    }

    /// The empty word.
    pub fn new() -> (r: Word)
        ensures
            r.wf(),
            r@ == Seq::<Direction>::empty(),
    {
        Word { moves: Vec::new() }
    }

    /// Records the move `d`: it cancels a last move that is its inverse, and
    /// is appended otherwise.
    pub fn push(&mut self, d: Direction)
        requires
            old(self).wf(),
        ensures
            final(self).wf(),
            final(self)@ == push_reduced(old(self)@, d),
    {
        proof {
            lemma_push_reduced(self@, d);
        }
        let n = self.moves.len();
        if n > 0 && self.moves[n - 1] == d.inverse() {
            self.moves.pop();
        } else {
            self.moves.push(d);
        }
    }

    /// Back to the empty word.
    pub fn reset(&mut self)
        ensures
            final(self).wf(),
            final(self)@ == Seq::<Direction>::empty(),
    {
        self.moves = Vec::new();
    }

    /// The moves of the word, in order.
    pub fn moves(&self) -> (r: &[Direction])
        ensures
            r@ == self@,
    {
        self.moves.as_slice()
    }

    pub fn is_empty(&self) -> (r: bool)
        ensures
            r == (self@.len() == 0),
    {
        self.moves.len() == 0
    }

    /// The word as its one-letter move codes (N, S, E, W), in order.
    pub fn word(&self) -> (r: String)
        ensures
            r@ == word_text(self@),
    {
        let mut text = String::new();
        let mut i: usize = 0;
        while i < self.moves.len()
            invariant
                0 <= i <= self.moves@.len(),
                text@ == word_text(self@.take(i as int)),
            decreases self.moves@.len() - i,
        {
            let c = code_text(self.moves[i]);
            text.append(c);
            i += 1;
            assert(text@ =~= word_text(self@.take(i as int)));
        }
        assert(self@.take(i as int) =~= self@);
        text
    }

    /// Whether the puzzle is solved: at least one move is recorded and every
    /// parameter's matrix is at the identity (`at_identity[k]` for the k-th).
    pub fn is_solved(&self, at_identity: &[bool]) -> (r: bool)
        ensures
            r == solved(self@, at_identity@),
    {
        if self.moves.len() == 0 {
            return false;
        }
        let mut k: usize = 0;
        while k < at_identity.len()
            invariant
                0 <= k <= at_identity@.len(),
                forall|m: int| 0 <= m < k ==> at_identity@[m],
            decreases at_identity@.len() - k,
        {
            if !at_identity[k] {
                return false;
            }
            k += 1;
        }
        true
    }
}

} // verus!
