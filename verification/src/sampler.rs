//! The move sampler: one step vacates a random occupied cell, occupies a
//! random border cell, and keeps the move only if it passes the weight test
//! and leaves the body connected.

use vstd::prelude::*;
use crate::cells::CellSet;
use crate::connectivity::connected;
use crate::lattice::{border_of, lemma_border_nonempty, Cell};
use crate::oracles::{lemma_oracles_agree, Oracle};
use crate::polycube::Polycube;

verus! {

/// The weight test of a step: whether a proposed move is kept, given the
/// size of the border before the move and after it.
pub trait Acceptance {
    /// What the policy answers where the two border sizes alone decide, and
    /// `None` where chance has a say. Unless a policy says otherwise,
    /// nothing is decided.
    open spec fn decided(&self, border_before: usize, border_after: usize) -> Option<bool> {
        None
    }

    /// Decides on one proposed move. Where the border sizes alone decide,
    /// the answer is the decided one; elsewhere it may depend on chance.
    /// Asking changes nothing of what is decided.
    fn accept(&mut self, border_before: usize, border_after: usize) -> (accepted: bool)
        ensures
            old(self).decided(border_before, border_after) matches Some(answer) ==> accepted == answer,
            forall|before: usize, after: usize|
                #[trigger] final(self).decided(before, after) == old(self).decided(before, after),
    ;
}

/// The unweighted policy: every proposed move passes the weight test.
#[derive(Clone, Copy, Debug)]
pub struct Uniform;

impl Acceptance for Uniform {
    open spec fn decided(&self, border_before: usize, border_after: usize) -> Option<bool> {
        Some(true)
    }

    fn accept(&mut self, border_before: usize, border_after: usize) -> (accepted: bool) {
        true
    }
}

/// Whether a step on the body `cells` may propose to vacate `removed` and
/// to occupy `inserted`: the first is occupied, the second lies on the
/// border that is left once the first is vacated.
pub open spec fn is_proposal(cells: Set<Cell>, removed: Cell, inserted: Cell) -> bool {
    cells.contains(removed) && border_of(cells.remove(removed)).contains(inserted)
}

/// Whether `accepted` is an answer that `policy` may give to the proposal
/// on `before`: the policy is asked with the size of the border before the
/// move and after it.
pub open spec fn may_answer<A: Acceptance>(
    policy: A,
    before: Set<Cell>,
    removed: Cell,
    inserted: Cell,
    accepted: bool,
) -> bool {
    policy.decided(
        border_of(before).len() as usize,
        border_of(before.remove(removed).insert(inserted)).len() as usize,
    ) matches Some(answer) ==> accepted == answer
}

/// Where a proposal on `before` ends, given the answer of the weight test:
/// the body after the step and the pair that the step returns. The move is
/// kept when it was accepted and the oracle finds the new body valid;
/// otherwise the body is left as it was.
pub open spec fn settled(
    before: Set<Cell>,
    removed: Cell,
    inserted: Cell,
    accepted: bool,
    oracle: Oracle,
) -> (Set<Cell>, Option<(Cell, Cell)>) {
    let after = before.remove(removed).insert(inserted);
    if accepted && oracle.verdict(after, removed) {
        (after, Some((inserted, removed)))
    } else {
        (before, None)
    }
}

/// Whether one step can lead from the body `before` to the body `after`
/// with the result `moved`. Where no move can be proposed, the body stays
/// and nothing is returned; elsewhere some proposal is settled with an
/// answer that the policy may give.
pub open spec fn is_step<A: Acceptance>(
    policy: A,
    oracle: Oracle,
    before: Set<Cell>,
    after: Set<Cell>,
    moved: Option<(Cell, Cell)>,
) -> bool {
    ||| {
        &&& forall|removed: Cell, inserted: Cell| !#[trigger] is_proposal(before, removed, inserted)
        &&& after == before
        &&& moved is None
    }
    ||| exists|removed: Cell, inserted: Cell, accepted: bool|
        {
            &&& is_proposal(before, removed, inserted)
            &&& may_answer(policy, before, removed, inserted, accepted)
            &&& #[trigger] settled(before, removed, inserted, accepted, oracle) == (after, moved)
        }
}

/// Whether `moves.len()` steps in a row can lead through the bodies
/// `states`, the step at each place with the result at that place.
pub open spec fn is_walk<A: Acceptance>(
    policy: A,
    oracle: Oracle,
    states: Seq<Set<Cell>>,
    moves: Seq<Option<(Cell, Cell)>>,
) -> bool {
    &&& states.len() == moves.len() + 1
    &&& forall|k: int|
        0 <= k < moves.len() ==> is_step(policy, oracle, #[trigger] states[k], states[k + 1], moves[k])
}

/// The pair of the last move that was kept among `moves`, if any was.
pub open spec fn last_kept(moves: Seq<Option<(Cell, Cell)>>) -> Option<(Cell, Cell)>
    decreases moves.len(),
{
    if moves.len() == 0 {
        None
    } else if moves.last() is Some {
        moves.last()
    } else {
        last_kept(moves.drop_last())
    }
}

/// A step under one policy is a step under every policy that decides the
/// same.
pub proof fn lemma_is_step_same_decisions<A: Acceptance>(
    policy: A,
    other: A,
    oracle: Oracle,
    before: Set<Cell>,
    after: Set<Cell>,
    moved: Option<(Cell, Cell)>,
)
    requires
        is_step(policy, oracle, before, after, moved),
        forall|x: usize, y: usize| #[trigger] policy.decided(x, y) == other.decided(x, y),
    ensures
        is_step(other, oracle, before, after, moved),
{
    if !(forall|removed: Cell, inserted: Cell| !#[trigger] is_proposal(before, removed, inserted)) {
        let (removed, inserted, accepted) = choose|removed: Cell, inserted: Cell, accepted: bool|
            {
                &&& is_proposal(before, removed, inserted)
                &&& may_answer(policy, before, removed, inserted, accepted)
                &&& #[trigger] settled(before, removed, inserted, accepted, oracle) == (after, moved)
            };
        assert(may_answer(other, before, removed, inserted, accepted));
        assert(settled(before, removed, inserted, accepted, oracle) == (after, moved));
    }
}

/// A walk goes on by one more step.
pub proof fn lemma_walk_push<A: Acceptance>(
    policy: A,
    oracle: Oracle,
    states: Seq<Set<Cell>>,
    moves: Seq<Option<(Cell, Cell)>>,
    next: Set<Cell>,
    moved: Option<(Cell, Cell)>,
)
    requires
        is_walk(policy, oracle, states, moves),
        is_step(policy, oracle, states.last(), next, moved),
    ensures
        is_walk(policy, oracle, states.push(next), moves.push(moved)),
        last_kept(moves.push(moved)) == if moved is Some { moved } else { last_kept(moves) },
{
    let longer = states.push(next);
    let more = moves.push(moved);
    assert forall|k: int| 0 <= k < more.len() implies is_step(policy, oracle, #[trigger] longer[k], longer[k + 1], more[k]) by {
        if k < moves.len() {
            assert(longer[k] == states[k] && longer[k + 1] == states[k + 1] && more[k] == moves[k]);
        } else {
            assert(longer[k] == states.last() && longer[k + 1] == next && more[k] == moved);
        }
    }
    assert(more.drop_last() =~= moves);
}

/// Draws an index below `n` with `rand::Rng::gen_range` on the range
/// `0..n`, from the generator that `rand::thread_rng` hands out. The
/// contract claims only that the index lies in the range, which must not be
/// empty: on an empty range `gen_range` panics.
#[verifier::external_body]
fn random_index(n: usize) -> (index: usize)
    requires
        n > 0,
    ensures
        index < n,
{
    rand::Rng::gen_range(&mut rand::thread_rng(), 0..n)
}

/// A cell of `set`, each with the same chance: the cell at a random place
/// in the order in which the set hands its cells out.
pub fn get_random(set: &CellSet) -> (c: Cell)
    requires
        set.wf(),
        set@.len() > 0,
    ensures
        set@.contains(c),
{
    let index = random_index(set.len());
    set.nth(index)
}

/// Vacating `removed` and then occupying `inserted`, a cell that is vacant
/// after the first half, is undone by vacating `inserted` and then
/// occupying `removed`: the body is what it was, cell for cell.
pub proof fn lemma_rollback_restores(before: Set<Cell>, removed: Cell, inserted: Cell)
    requires
        before.contains(removed),
        !before.remove(removed).contains(inserted),
    ensures
        before.remove(removed).insert(inserted).remove(inserted).insert(removed) == before,
{
    assert(before.remove(removed).insert(inserted).remove(inserted).insert(removed) =~= before);
}

/// A move between a finite body and its border keeps the number of cells.
pub proof fn lemma_move_keeps_size(before: Set<Cell>, removed: Cell, inserted: Cell)
    requires
        before.finite(),
        before.contains(removed),
        !before.remove(removed).contains(inserted),
    ensures
        before.remove(removed).insert(inserted).len() == before.len(),
{
}

impl Polycube {
    /// An occupied cell, each with the same chance.
    pub fn get_random(&self) -> (c: Cell)
        requires
            self.wf(),
            self.cells().len() > 0,
        ensures
            self.cells().contains(c),
    {
        get_random(self.complex())
    }

    /// Occupies a border cell, each with the same chance, and returns it.
    pub fn insert_random(&mut self) -> (c: Cell)
        requires
            old(self).wf(),
            old(self).border().len() > 0,
        ensures
            final(self).wf(),
            old(self).border().contains(c),
            final(self).cells() == old(self).cells().insert(c),
            final(self).bounds() == old(self).bounds().grown_to(c),
    {
        let r = get_random(self.insertable_locations());
        self.insert(r);
        r
    }

    /// Vacates an occupied cell, each with the same chance, and returns it.
    pub fn remove_random(&mut self) -> (c: Cell)
        requires
            old(self).wf(),
            old(self).cells().len() > 0,
        ensures
            final(self).wf(),
            old(self).cells().contains(c),
            final(self).cells() == old(self).cells().remove(c),
            final(self).bounds() == old(self).bounds(),
    {
        let r = self.get_random();
        self.remove(&r);
        r
    }

    /// Settles a proposed move that occupied `inserted` after vacating
    /// `removed`. The move is kept when it passed the weight test and the
    /// oracle finds the body valid; the pair is then returned. Otherwise
    /// both halves are undone: `inserted` is vacated, `removed` occupied.
    pub fn resolve(&mut self, inserted: Cell, removed: Cell, accepted: bool, oracle: Oracle) -> (moved: Option<(Cell, Cell)>)
        requires
            old(self).wf(),
        ensures
            final(self).wf(),
            accepted && oracle.verdict(old(self).cells(), removed) ==> {
                &&& moved == Some((inserted, removed))
                &&& final(self).cells() == old(self).cells()
                &&& final(self).bounds() == old(self).bounds()
            },
            !(accepted && oracle.verdict(old(self).cells(), removed)) ==> {
                &&& moved is None
                &&& final(self).cells() == old(self).cells().remove(inserted).insert(removed)
                &&& final(self).bounds() == old(self).bounds().grown_to(removed)
            },
    {
        if accepted && self.check_validity(oracle, &removed) {
            Some((inserted, removed))
        } else {
            self.remove(&inserted);
            self.insert(removed);
            None
        }
    }

    /// One step of the sampler: vacates a random occupied cell, occupies a
    /// random cell of the border that is then left, puts the move to the
    /// weight test of `policy` and to `oracle`, and either keeps it, returning
    /// the inserted and the removed cell, or undoes it. A body with no cell,
    /// or with no border once a cell is vacated, is left as it is.
    pub fn step<A: Acceptance>(&mut self, policy: &mut A, oracle: Oracle) -> (moved: Option<(Cell, Cell)>)
        requires
            old(self).wf(),
        ensures
            final(self).wf(),
            is_step(*old(policy), oracle, old(self).cells(), final(self).cells(), moved),
            forall|before: usize, after: usize|
                #[trigger] final(policy).decided(before, after) == old(policy).decided(before, after),
            final(self).cells().len() == old(self).cells().len(),
            connected(old(self).cells()) ==> connected(final(self).cells()),
            old(self).bounds().within(final(self).bounds()),
            moved is None ==> final(self).cells() == old(self).cells(),
            moved matches Some((inserted, removed)) ==> {
                &&& old(self).cells().contains(removed)
                &&& border_of(old(self).cells().remove(removed)).contains(inserted)
                &&& final(self).cells() == old(self).cells().remove(removed).insert(inserted)
                &&& final(self).bounds() == old(self).bounds().grown_to(inserted)
                &&& oracle.verdict(final(self).cells(), removed)
            },
    {
        let ghost before = self.cells();
        let ghost asked = *policy;
        if self.complex().len() == 0 {
            proof {
                before.lemma_len0_is_empty();
                assert forall|removed: Cell, inserted: Cell| !#[trigger] is_proposal(before, removed, inserted) by {}
            }
            return None;
        }
        let len_old = self.insertable_locations().len();
        let removed = self.remove_random();
        if self.insertable_locations().len() == 0 {
            proof {
                let left = before.remove(removed);
                border_of(left).lemma_len0_is_empty();
                assert forall|r: Cell, i: Cell| !#[trigger] is_proposal(before, r, i) by {
                    if is_proposal(before, r, i) && r != removed {
                        assert(left.contains(r));
                        assert(!left.contains(removed));
                        lemma_border_nonempty(left);
                    }
                }
            }
            self.insert(removed);
            proof {
                assert(before.remove(removed).insert(removed) =~= before);
            }
            return None;
        }
        let inserted = self.insert_random();
        let accepted = policy.accept(len_old, self.insertable_locations().len());
        let moved = self.resolve(inserted, removed, accepted, oracle);
        proof {
            lemma_rollback_restores(before, removed, inserted);
            lemma_move_keeps_size(before, removed, inserted);
            if moved is Some && connected(before) {
                lemma_oracles_agree(before, removed, inserted);
            }
            assert(is_proposal(before, removed, inserted));
            assert(may_answer(asked, before, removed, inserted, accepted));
            assert(settled(before, removed, inserted, accepted, oracle) == (self.cells(), moved));
        }
        moved
    }

    /// Runs `times` steps in a row and returns the pair of the last move
    /// that was kept, if any was.
    pub fn shuffle_with<A: Acceptance>(&mut self, times: usize, policy: &mut A, oracle: Oracle) -> (last: Option<(Cell, Cell)>)
        requires
            old(self).wf(),
        ensures
            final(self).wf(),
            exists|states: Seq<Set<Cell>>, moves: Seq<Option<(Cell, Cell)>>|
                {
                    &&& #[trigger] is_walk(*old(policy), oracle, states, moves)
                    &&& moves.len() == times
                    &&& states[0] == old(self).cells()
                    &&& states.last() == final(self).cells()
                    &&& last == last_kept(moves)
                },
            forall|before: usize, after: usize|
                #[trigger] final(policy).decided(before, after) == old(policy).decided(before, after),
            final(self).cells().len() == old(self).cells().len(),
            connected(old(self).cells()) ==> connected(final(self).cells()),
            old(self).bounds().within(final(self).bounds()),
            last is None ==> final(self).cells() == old(self).cells(),
            last matches Some((inserted, removed)) ==> {
                &&& final(self).cells().contains(inserted)
                &&& inserted != removed ==> !final(self).cells().contains(removed)
                &&& oracle.verdict(final(self).cells(), removed)
            },
    {
        let mut last_shuffled: Option<(Cell, Cell)> = None;
        let ghost mut states: Seq<Set<Cell>> = seq![self.cells()];
        let ghost mut moves: Seq<Option<(Cell, Cell)>> = Seq::empty();
        let mut i: usize = 0;
        while i < times
            invariant
                i <= times,
                self.wf(),
                is_walk(*old(policy), oracle, states, moves),
                moves.len() == i,
                states[0] == old(self).cells(),
                states.last() == self.cells(),
                last_shuffled == last_kept(moves),
                forall|before: usize, after: usize|
                    #[trigger] policy.decided(before, after) == old(policy).decided(before, after),
                self.cells().len() == old(self).cells().len(),
                connected(old(self).cells()) ==> connected(self.cells()),
                old(self).bounds().within(self.bounds()),
                last_shuffled is None ==> self.cells() == old(self).cells(),
                last_shuffled matches Some((inserted, removed)) ==> {
                    &&& self.cells().contains(inserted)
                    &&& inserted != removed ==> !self.cells().contains(removed)
                    &&& oracle.verdict(self.cells(), removed)
                },
            decreases times - i,
        {
            let ghost asked = *policy;
            let ghost here = self.cells();
            let moved = self.step(policy, oracle);
            proof {
                lemma_is_step_same_decisions(asked, *old(policy), oracle, here, self.cells(), moved);
                lemma_walk_push(*old(policy), oracle, states, moves, self.cells(), moved);
                states = states.push(self.cells());
                moves = moves.push(moved);
            }
            if moved.is_some() {
                last_shuffled = moved;
            }
            i = i + 1;
        }
        last_shuffled
    }

    /// Runs `times` unweighted steps in a row, each checked by the
    /// depth-first oracle, and returns the pair of the last move that was
    /// kept, if any was.
    pub fn shuffle(&mut self, times: usize) -> (last: Option<(Cell, Cell)>)
        requires
            old(self).wf(),
        ensures
            final(self).wf(),
            exists|states: Seq<Set<Cell>>, moves: Seq<Option<(Cell, Cell)>>|
                {
                    &&& #[trigger] is_walk(Uniform, Oracle::Dfs, states, moves)
                    &&& moves.len() == times
                    &&& states[0] == old(self).cells()
                    &&& states.last() == final(self).cells()
                    &&& last == last_kept(moves)
                },
            final(self).cells().len() == old(self).cells().len(),
            connected(old(self).cells()) ==> connected(final(self).cells()),
            old(self).bounds().within(final(self).bounds()),
            last is None ==> final(self).cells() == old(self).cells(),
            last matches Some((inserted, removed)) ==> {
                &&& final(self).cells().contains(inserted)
                &&& inserted != removed ==> !final(self).cells().contains(removed)
                &&& connected(final(self).cells())
            },
    {
        let mut policy = Uniform;
        self.shuffle_with(times, &mut policy, Oracle::Dfs)
    }
}

} // verus!
