//! Depth-first search for a state with every piece on the board.

use crate::board::{
    at, board_models, cover, lemma_full, lemma_no_overlap, lemma_place_wf, lemma_without_shrinks,
    place_model, BoardModel, BoardState,
};
use crate::catalog::Catalog;
use crate::piece::{lemma_variants_upto, piece_model};
use crate::seeding::{lemma_roots, root_models};
use crate::template::{is_piece_name, is_placeable, lemma_names, names};
use vstd::prelude::*;

verus! {

/// Whether laying orientation `variant` of the piece `name` is a move in
/// state `m`: the piece is left to place and has that orientation.
pub open spec fn is_move(m: BoardModel, name: char, variant: int) -> bool {
    &&& m.remaining.contains(name)
    &&& 0 <= variant < piece_model(name, false).variants.len()
}

/// Whether one move that fits leads from `m` to `next`.
pub open spec fn steps_to(m: BoardModel, next: BoardModel) -> bool {
    exists|name: char, variant: int|
        is_move(m, name, variant) && #[trigger] place_model(m, piece_model(name, false), variant)
            == Some(next)
}

/// Whether `steps` moves that fit lead from `m` to `goal`.
pub open spec fn reaches(m: BoardModel, goal: BoardModel, steps: nat) -> bool
    decreases steps,
{
    if steps == 0 {
        m == goal
    } else {
        exists|mid: BoardModel| #[trigger]
            steps_to(m, mid) && reaches(mid, goal, (steps - 1) as nat)
    }
}

/// Whether moves that fit lead from `m` to `goal`.
pub open spec fn can_reach(m: BoardModel, goal: BoardModel) -> bool {
    exists|steps: nat| reaches(m, goal, steps)
}

/// Whether moves that fit lead from `m` to a state with every piece on the
/// board.
pub open spec fn solvable(m: BoardModel) -> bool {
    exists|goal: BoardModel| goal.solved() && #[trigger] can_reach(m, goal)
}

/// Whether one of the states `ms` is solvable.
pub open spec fn any_solvable(ms: Seq<BoardModel>) -> bool {
    exists|k: int| 0 <= k < ms.len() && solvable(#[trigger] ms[k])
}

/// Whether moves that fit lead from one of the states `ms` to `goal`.
pub open spec fn reached_from(ms: Seq<BoardModel>, goal: BoardModel) -> bool {
    exists|k: int| 0 <= k < ms.len() && can_reach(#[trigger] ms[k], goal)
}

/// The states that follow `m` by laying one of the first `upto`
/// orientations of the piece `name`, in the order of the orientations.
pub open spec fn piece_moves(m: BoardModel, name: char, upto: int) -> Seq<BoardModel>
    decreases upto,
{
    if upto <= 0 {
        Seq::empty()
    } else {
        match place_model(m, piece_model(name, false), upto - 1) {
            Some(next) => piece_moves(m, name, upto - 1).push(next),
            None => piece_moves(m, name, upto - 1),
        }
    }
}

/// The states that follow `m` by laying any orientation of one of the first
/// `upto` pieces left to place, piece by piece.
pub open spec fn moves(m: BoardModel, upto: int) -> Seq<BoardModel>
    decreases upto,
{
    if upto <= 0 {
        Seq::empty()
    } else {
        moves(m, upto - 1) + piece_moves(
            m,
            m.remaining[upto - 1],
            piece_model(m.remaining[upto - 1], false).variants.len() as int,
        )
    }
}

/// The states that follow `m` by one move that fits, in the order in which
/// the search tries the moves.
pub open spec fn successors(m: BoardModel) -> Seq<BoardModel> {
    moves(m, m.remaining.len() as int)
}

/// An upper bound of the number of states that the search visits below a
/// state with `left` pieces left to place.
pub open spec fn weight(left: nat) -> nat
    decreases left,
{
    if left == 0 {
        1
    } else {
        1 + 8 * left * weight((left - 1) as nat)
    }
}

/// The sum of the weights of the states `stack`.
pub open spec fn stack_weight(stack: Seq<BoardModel>) -> nat
    decreases stack.len(),
{
    if stack.len() == 0 {
        0
    } else {
        stack_weight(stack.drop_last()) + weight(stack.last().remaining.len())
    }
}

/// The fewer pieces are left, the less a state weighs.
pub proof fn lemma_weight_grows(a: nat, b: nat)
    requires
        a <= b,
    ensures
        weight(a) <= weight(b),
    decreases b,
{
    if a < b {
        lemma_weight_grows(a, (b - 1) as nat);
        assert(weight((b - 1) as nat) <= 8 * b * weight((b - 1) as nat)) by (nonlinear_arith)
            requires
                b >= 1,
        ;
    }
}

/// Two stacks put together weigh what they weigh apart.
pub proof fn lemma_stack_weight_add(a: Seq<BoardModel>, b: Seq<BoardModel>)
    ensures
        stack_weight(a + b) == stack_weight(a) + stack_weight(b),
    decreases b.len(),
{
    if b.len() == 0 {
        assert(a + b =~= a);
    } else {
        lemma_stack_weight_add(a, b.drop_last());
        assert((a + b).drop_last() =~= a + b.drop_last());
    }
}

/// A stack of states that have at most `left` pieces left each weighs at
/// most as much as that many states with `left` pieces left.
pub proof fn lemma_stack_weight_bound(stack: Seq<BoardModel>, left: nat)
    requires
        forall|k: int| 0 <= k < stack.len() ==> (#[trigger] stack[k]).remaining.len() <= left,
    ensures
        stack_weight(stack) <= stack.len() * weight(left),
    decreases stack.len(),
{
    if stack.len() > 0 {
        let front = stack.drop_last();
        assert forall|k: int| 0 <= k < front.len() implies (#[trigger] front[k]).remaining.len()
            <= left by {
            assert(front[k] == stack[k]);
        }
        lemma_stack_weight_bound(front, left);
        lemma_weight_grows(stack.last().remaining.len(), left);
        assert(front.len() * weight(left) + weight(left) == stack.len() * weight(left))
            by (nonlinear_arith)
            requires
                front.len() + 1 == stack.len(),
        ;
    }
}

/// What laying the first `upto` orientations of one piece gives: states
/// that one move away from `m`, with fewer pieces left, one for each
/// orientation at most, and among them every state that a move with one of
/// these orientations leads to.
pub proof fn lemma_piece_moves(m: BoardModel, name: char, upto: int)
    requires
        m.remaining.contains(name),
        0 <= upto <= piece_model(name, false).variants.len(),
    ensures
        piece_moves(m, name, upto).len() <= upto,
        forall|k: int|
            0 <= k < piece_moves(m, name, upto).len() ==> steps_to(
                m,
                #[trigger] piece_moves(m, name, upto)[k],
            ) && piece_moves(m, name, upto)[k].remaining.len() < m.remaining.len(),
        forall|variant: int|
            0 <= variant < upto && (#[trigger] place_model(
                m,
                piece_model(name, false),
                variant,
            )) is Some ==> piece_moves(m, name, upto).contains(
                place_model(m, piece_model(name, false), variant)->0,
            ),
    decreases upto,
{
    let all = piece_moves(m, name, upto);
    if upto > 0 {
        let before = piece_moves(m, name, upto - 1);
        lemma_piece_moves(m, name, upto - 1);
        let last = place_model(m, piece_model(name, false), upto - 1);
        assert forall|k: int| 0 <= k < all.len() implies steps_to(m, #[trigger] all[k])
            && all[k].remaining.len() < m.remaining.len() by {
            if k < before.len() {
                assert(all[k] == before[k]);
            } else {
                assert(last == Some(all[k]));
                assert(is_move(m, name, upto - 1));
                lemma_without_shrinks(m.remaining, name);
            }
        }
        assert forall|variant: int|
            0 <= variant < upto && (#[trigger] place_model(
                m,
                piece_model(name, false),
                variant,
            )) is Some implies all.contains(
            place_model(m, piece_model(name, false), variant)->0,
        ) by {
            let next = place_model(m, piece_model(name, false), variant)->0;
            if variant < upto - 1 {
                assert(before.contains(next));
                let k = choose|k: int| 0 <= k < before.len() && before[k] == next;
                assert(all[k] == next);
            } else {
                assert(all[all.len() - 1] == next);
            }
        }
    }
}

/// What one move with one of the first `upto` pieces left to place gives:
/// states that are one move away from `m`, with fewer pieces left, eight for
/// each piece at most, and among them every state that a move with one of
/// these pieces leads to.
pub proof fn lemma_moves(m: BoardModel, upto: int)
    requires
        0 <= upto <= m.remaining.len(),
    ensures
        moves(m, upto).len() <= 8 * upto,
        forall|k: int|
            0 <= k < moves(m, upto).len() ==> steps_to(m, #[trigger] moves(m, upto)[k]) && moves(
                m,
                upto,
            )[k].remaining.len() < m.remaining.len(),
        forall|at: int, variant: int|
            0 <= at < upto && 0 <= variant < piece_model(m.remaining[at], false).variants.len() && (
            #[trigger] place_model(m, piece_model(m.remaining[at], false), variant)) is Some
                ==> moves(m, upto).contains(
                place_model(m, piece_model(m.remaining[at], false), variant)->0,
            ),
    decreases upto,
{
    let all = moves(m, upto);
    if upto > 0 {
        let name = m.remaining[upto - 1];
        let count = piece_model(name, false).variants.len() as int;
        let before = moves(m, upto - 1);
        let now = piece_moves(m, name, count);
        lemma_moves(m, upto - 1);
        assert(m.remaining.contains(name));
        lemma_piece_moves(m, name, count);
        lemma_variants_upto(name, 8);
        assert forall|k: int| 0 <= k < all.len() implies steps_to(m, #[trigger] all[k])
            && all[k].remaining.len() < m.remaining.len() by {
            if k < before.len() {
                assert(all[k] == before[k]);
            } else {
                assert(all[k] == now[k - before.len()]);
            }
        }
        assert forall|at: int, variant: int|
            0 <= at < upto && 0 <= variant < piece_model(m.remaining[at], false).variants.len() && (
            #[trigger] place_model(m, piece_model(m.remaining[at], false), variant)) is Some
                implies all.contains(
            place_model(m, piece_model(m.remaining[at], false), variant)->0,
        ) by {
            let next = place_model(m, piece_model(m.remaining[at], false), variant)->0;
            if at < upto - 1 {
                assert(before.contains(next));
                let k = choose|k: int| 0 <= k < before.len() && before[k] == next;
                assert(all[k] == next);
            } else {
                assert(now.contains(next));
                let k = choose|k: int| 0 <= k < now.len() && now[k] == next;
                assert(all[before.len() + k] == next);
            }
        }
    }
}

/// The successors of a state are exactly the states one move away from it.
/// They have fewer pieces left than the state, and there are at most eight
/// of them for every piece left.
pub proof fn lemma_successors(m: BoardModel)
    ensures
        successors(m).len() <= 8 * m.remaining.len(),
        forall|k: int|
            0 <= k < successors(m).len() ==> (#[trigger] successors(m)[k]).remaining.len()
                < m.remaining.len(),
        forall|next: BoardModel| #[trigger] steps_to(m, next) <==> successors(m).contains(next),
{
    lemma_moves(m, m.remaining.len() as int);
    assert forall|next: BoardModel| #[trigger] steps_to(m, next) <==> successors(m).contains(
        next,
    ) by {
        if steps_to(m, next) {
            let (name, variant) = choose|name: char, variant: int|
                is_move(m, name, variant) && #[trigger] place_model(
                    m,
                    piece_model(name, false),
                    variant,
                ) == Some(next);
            let at = choose|at: int| 0 <= at < m.remaining.len() && m.remaining[at] == name;
            assert(place_model(m, piece_model(m.remaining[at], false), variant) == Some(next));
            assert(place_model(m, piece_model(m.remaining[at], false), variant)->0 == next);
        }
        if successors(m).contains(next) {
            let k = choose|k: int| 0 <= k < successors(m).len() && successors(m)[k] == next;
            assert(steps_to(m, successors(m)[k]));
        }
    }
}

/// Replacing a state that has pieces left by its successors makes a stack
/// lighter.
pub proof fn lemma_expand_weight(rest: Seq<BoardModel>, m: BoardModel)
    requires
        m.remaining.len() > 0,
    ensures
        stack_weight(rest + successors(m)) < stack_weight(rest.push(m)),
{
    let next = successors(m);
    let left = (m.remaining.len() - 1) as nat;
    lemma_successors(m);
    lemma_stack_weight_add(rest, next);
    lemma_stack_weight_bound(next, left);
    assert(rest.push(m).drop_last() =~= rest);
    assert(next.len() * weight(left) <= 8 * m.remaining.len() * weight(left)) by (nonlinear_arith)
        requires
            next.len() <= 8 * m.remaining.len(),
    ;
}

/// Every path from a state with pieces left to a state with none goes
/// through one of its successors.
pub proof fn lemma_solvable_through(m: BoardModel)
    requires
        solvable(m),
        !m.solved(),
    ensures
        any_solvable(successors(m)),
{
    let goal = choose|goal: BoardModel| goal.solved() && #[trigger] can_reach(m, goal);
    let steps = choose|steps: nat| reaches(m, goal, steps);
    assert(steps > 0);
    let via = choose|via: BoardModel| #[trigger]
        steps_to(m, via) && reaches(via, goal, (steps - 1) as nat);
    lemma_successors(m);
    assert(successors(m).contains(via));
    let k = choose|k: int| 0 <= k < successors(m).len() && successors(m)[k] == via;
    assert(can_reach(via, goal));
    assert(solvable(successors(m)[k]));
}

/// Pushes the successors of `state` on `states`, in the order in which the
/// moves are tried: piece by piece as the pieces are left to place, each
/// piece orientation by orientation.
pub fn expand(catalog: &Catalog, state: &BoardState, states: &mut Vec<BoardState>)
    requires
        state@.wf(),
    ensures
        final(states)@.len() >= old(states)@.len(),
        final(states)@.subrange(0, old(states)@.len() as int) == old(states)@,
        board_models(final(states)@) == board_models(old(states)@) + successors(state@),
        forall|k: int|
            old(states)@.len() <= k < final(states)@.len() ==> (#[trigger] final(states)@[k])@.wf(),
{
    let ghost base = states@;
    let ghost m = state@;
    let mut at: usize = 0;
    assert(states@.subrange(0, base.len() as int) =~= base);
    assert(board_models(states@) =~= board_models(base) + moves(m, 0));
    while at < state.pieces_to_place.len()
        invariant
            at <= state.pieces_to_place@.len(),
            m == state@,
            m.wf(),
            states@.len() >= base.len(),
            states@.subrange(0, base.len() as int) == base,
            board_models(states@) == board_models(base) + moves(m, at as int),
            forall|k: int| base.len() <= k < states@.len() ==> (#[trigger] states@[k])@.wf(),
        decreases state.pieces_to_place@.len() - at,
    {
        let name: char = state.pieces_to_place[at];
        assert(is_placeable(m.remaining[at as int]));
        proof {
            lemma_names();
            let index = choose|k: int| 1 <= k < 14 && #[trigger] names()[k] == name;
            assert(is_piece_name(name));
        }
        assert(m.remaining.contains(name));
        let piece = catalog.piece(name);
        let ghost so_far = board_models(base) + moves(m, at as int);
        let mut variant: usize = 0;
        assert(board_models(states@) =~= so_far + piece_moves(m, name, 0));
        while variant < piece.variants.len()
            invariant
                variant <= piece.variants@.len(),
                at < state.pieces_to_place@.len(),
                name == m.remaining[at as int],
                m.remaining.contains(name),
                piece.wf(),
                piece.name == name,
                m == state@,
                m.wf(),
                so_far == board_models(base) + moves(m, at as int),
                states@.len() >= base.len(),
                states@.subrange(0, base.len() as int) == base,
                board_models(states@) == so_far + piece_moves(m, name, variant as int),
                forall|k: int| base.len() <= k < states@.len() ==> (#[trigger] states@[k])@.wf(),
            decreases piece.variants@.len() - variant,
        {
            let ghost before = states@;
            let ghost tried = piece_moves(m, name, variant as int);
            match state.place_piece(piece, variant) {
                Ok(new_state) => {
                    states.push(new_state);
                    assert(states@.subrange(0, base.len() as int) =~= before.subrange(
                        0,
                        base.len() as int,
                    ));
                    assert(board_models(states@) =~= board_models(before).push(new_state@));
                    assert(so_far + tried.push(new_state@) =~= (so_far + tried).push(new_state@));
                },
                Err(_) => {},
            }
            variant += 1;
        }
        assert(piece.variants@.len() == piece_model(name, false).variants.len());
        assert(board_models(states@) =~= board_models(base) + moves(m, at as int + 1)) by {
            let all = piece_moves(m, name, variant as int);
            assert(board_models(base) + moves(m, at as int) + all =~= board_models(base) + (moves(
                m,
                at as int,
            ) + all));
        }
        at += 1;
    }
}

/// What the search finds when it starts with the states `stack`, the last
/// of them on top.
///
/// The search takes the top state off the stack. Where no piece is left in
/// it, that state is the result. Otherwise its successors go on the stack in
/// its place, and the search goes on. An empty stack gives no result.
pub open spec fn search_model(stack: Seq<BoardModel>) -> Option<BoardModel>
    decreases stack_weight(stack),
    via search_model_ends
{
    if stack.len() == 0 {
        None
    } else if stack.last().solved() {
        Some(stack.last())
    } else {
        search_model(stack.drop_last() + successors(stack.last()))
    }
}

#[via_fn]
proof fn search_model_ends(stack: Seq<BoardModel>) {
    if stack.len() > 0 && !stack.last().solved() {
        lemma_expand_weight(stack.drop_last(), stack.last());
        assert(stack.drop_last().push(stack.last()) =~= stack);
    }
}

/// The search is sound and complete: what it finds has every piece on the
/// board and is reached by moves that fit from one of the states it started
/// with, and where it finds nothing, no such state exists.
pub proof fn lemma_search(stack: Seq<BoardModel>)
    ensures
        match search_model(stack) {
            Some(goal) => goal.solved() && reached_from(stack, goal),
            None => !any_solvable(stack),
        },
    decreases stack_weight(stack),
{
    if stack.len() == 0 {
    } else if stack.last().solved() {
        let top = stack.last();
        assert(reaches(stack[stack.len() - 1], top, 0));
        assert(can_reach(stack[stack.len() - 1], top));
    } else {
        let top = stack.last();
        let rest = stack.drop_last();
        let next = rest + successors(top);
        lemma_expand_weight(rest, top);
        assert(rest.push(top) =~= stack);
        lemma_search(next);
        lemma_successors(top);
        match search_model(next) {
            Some(goal) => {
                let k = choose|k: int| 0 <= k < next.len() && can_reach(#[trigger] next[k], goal);
                if k < rest.len() {
                    assert(stack[k] == next[k]);
                } else {
                    let via = next[k];
                    assert(via == successors(top)[k - rest.len()]);
                    assert(successors(top).contains(via));
                    let steps = choose|steps: nat| reaches(via, goal, steps);
                    assert(steps_to(top, via) && reaches(via, goal, steps));
                    assert(reaches(top, goal, steps + 1));
                    assert(can_reach(stack[stack.len() - 1], goal));
                }
            },
            None => {
                if any_solvable(stack) {
                    let k = choose|k: int| 0 <= k < stack.len() && solvable(#[trigger] stack[k]);
                    if k < rest.len() {
                        assert(next[k] == stack[k]);
                    } else {
                        lemma_solvable_through(top);
                        let i = choose|i: int|
                            0 <= i < successors(top).len() && solvable(#[trigger] successors(top)[i]);
                        assert(next[rest.len() + i] == successors(top)[i]);
                    }
                }
            },
        }
    }
}

/// A move that fits leads from a well-formed state to a well-formed state
/// whose anchor is its first free cell.
pub proof fn lemma_step_wf(m: BoardModel, next: BoardModel)
    requires
        m.wf(),
        steps_to(m, next),
    ensures
        next.wf(),
        next.anchored(),
        m.balanced() ==> next.balanced(),
        m.faithful() ==> next.faithful(),
{
    let (name, variant) = choose|name: char, variant: int|
        is_move(m, name, variant) && #[trigger] place_model(m, piece_model(name, false), variant)
            == Some(next);
    lemma_place_wf(m, piece_model(name, false), variant);
}

/// Every state that moves that fit lead to from a well-formed state is well
/// formed, and so are all states that the search ever holds.
pub proof fn lemma_reach_wf(m: BoardModel, goal: BoardModel, steps: nat)
    requires
        m.wf(),
        reaches(m, goal, steps),
    ensures
        goal.wf(),
        m.anchored() || steps > 0 ==> goal.anchored(),
        m.balanced() ==> goal.balanced(),
        m.faithful() ==> goal.faithful(),
    decreases steps,
{
    if steps > 0 {
        let via = choose|via: BoardModel| #[trigger]
            steps_to(m, via) && reaches(via, goal, (steps - 1) as nat);
        lemma_step_wf(m, via);
        lemma_reach_wf(via, goal, (steps - 1) as nat);
    }
}

/// In every state that the search for a target can come to, the pieces on
/// the board lie on cells that carry their symbol, no two of them share a
/// cell, every piece is on the board or left to place, the anchor is the
/// first free cell, the grid shows the printed board with the pieces on it
/// and nothing else, and the free cells are exactly as many as the pieces
/// left need: so with every piece on the board no cell is free.
pub proof fn lemma_reachable(target: int, k: int, goal: BoardModel)
    requires
        1 <= target <= 255,
        0 <= k < root_models(target).len(),
        can_reach(root_models(target)[k], goal),
    ensures
        goal.wf(),
        goal.anchored(),
        goal.balanced(),
        goal.faithful(),
        goal.solved() ==> goal.full(),
        forall|a: int, b: int|
            0 <= a < goal.placed.len() && 0 <= b < goal.placed.len() && a != b ==> (
            #[trigger] cover(goal.placed[a])).disjoint(#[trigger] cover(goal.placed[b])),
{
    let root = root_models(target)[k];
    let steps = choose|steps: nat| reaches(root, goal, steps);
    lemma_roots(target, k);
    lemma_reach_wf(root, goal, steps);
    assert forall|a: int, b: int|
        0 <= a < goal.placed.len() && 0 <= b < goal.placed.len() && a != b implies (
    #[trigger] cover(goal.placed[a])).disjoint(#[trigger] cover(goal.placed[b])) by {
        lemma_no_overlap(goal, a, b);
    }
    if goal.solved() {
        lemma_full(goal);
    }
}

/// What one step of the search did.
#[derive(Debug)]
pub enum Step {
    /// The top state had no piece left; it was taken off the stack and is
    /// handed out.
    Solved(BoardState),
    /// The stack was empty.
    Exhausted,
    /// The top state had pieces left; its successors took its place.
    Expanded,
}

/// A depth-first search in progress: the catalog and the stack of states
/// that are still to be looked at.
#[derive(Debug)]
pub struct Search {
    catalog: Catalog,
    states: Vec<BoardState>,
}

impl Search {
    /// Every state on the stack is well formed.
    #[verifier::type_invariant]
    spec fn sound(&self) -> bool {
        forall|k: int| 0 <= k < self.states@.len() ==> (#[trigger] self.states@[k])@.wf()
    }

    /// The states on the stack, the top one last.
    pub closed spec fn stack(&self) -> Seq<BoardModel> {
        board_models(self.states@)
    }

    /// Starts a search for `target` with the states that `BoardState::new`
    /// gives.
    pub fn new(target: u8) -> (search: Search)
        requires
            target >= 1,
        ensures
            search.stack() == root_models(target as int),
    {
        Search { catalog: Catalog::new(), states: BoardState::new(target) }
    }

    /// The number of states on the stack.
    pub fn pending(&self) -> (n: usize)
        ensures
            n == self.stack().len(),
    {
        self.states.len()
    }

    /// Takes the top state off the stack and either hands it out, where no
    /// piece is left in it, or puts its successors on the stack.
    pub fn step(&mut self) -> (step: Step)
        ensures
            match step {
                Step::Exhausted => old(self).stack().len() == 0 && final(self).stack() == old(
                    self,
                ).stack(),
                Step::Solved(state) => old(self).stack().len() > 0 && old(
                    self,
                ).stack().last().solved() && state@ == old(self).stack().last() && state@.wf()
                    && final(self).stack() == old(self).stack().drop_last(),
                Step::Expanded => old(self).stack().len() > 0 && !old(
                    self,
                ).stack().last().solved() && final(self).stack() == old(self).stack().drop_last()
                    + successors(old(self).stack().last()),
            },
    {
        proof {
            use_type_invariant(&*self);
        }
        let ghost before = self.states@;
        // The stack is worked on outside of the search and put back at the end.
        let mut states: Vec<BoardState> = Vec::new();
        core::mem::swap(&mut self.states, &mut states);
        let step = match states.pop() {
            None => Step::Exhausted,
            Some(state) => {
                let ghost rest = states@;
                assert(board_models(rest) =~= board_models(before).drop_last());
                if state.pieces_to_place.len() == 0 {
                    Step::Solved(state)
                } else {
                    expand(&self.catalog, &state, &mut states);
                    proof {
                        assert forall|k: int| 0 <= k < states@.len() implies (
                        #[trigger] states@[k])@.wf() by {
                            if k < rest.len() {
                                assert(states@.subrange(0, rest.len() as int)[k] == states@[k]);
                                assert(states@[k] == before[k]);
                            }
                        }
                    }
                    Step::Expanded
                }
            },
        };
        core::mem::swap(&mut self.states, &mut states);
        step
    }
}

/// Searches for a way to put every piece on the board with the target piece
/// beside `target`.
///
/// The search is depth first: it starts from the states that
/// `BoardState::new` gives, always goes on with the state it found last,
/// and stops at the first state with no piece left. It gives `Some` state
/// with every piece on the board and no cell free that moves that fit lead
/// to from a start state, or `None` when no such state exists.
pub fn solve(target: u8) -> (found: Option<BoardState>)
    requires
        target >= 1,
    ensures
        match found {
            Some(state) => search_model(root_models(target as int)) == Some(state@)
                && state@.wf() && state@.solved() && state@.full() && state@.faithful()
                && reached_from(
                root_models(target as int),
                state@,
            ),
            None => search_model(root_models(target as int)) is None && !any_solvable(
                root_models(target as int),
            ),
        },
{
    let mut search = Search::new(target);
    let ghost roots = root_models(target as int);
    proof {
        lemma_search(roots);
    }
    // Depth-first search algorithm
    loop
        invariant
            target >= 1,
            roots == root_models(target as int),
            search_model(search.stack()) == search_model(roots),
            match search_model(roots) {
                Some(goal) => goal.solved() && reached_from(roots, goal),
                None => !any_solvable(roots),
            },
        decreases stack_weight(search.stack()),
    {
        let ghost before = search.stack();
        match search.step() {
            Step::Solved(state) => {
                proof {
                    let k = choose|k: int|
                        0 <= k < roots.len() && can_reach(#[trigger] roots[k], state@);
                    lemma_reachable(target as int, k, state@);
                }
                return Some(state);
            },
            Step::Exhausted => {
                return None;
            },
            Step::Expanded => {
                proof {
                    lemma_expand_weight(before.drop_last(), before.last());
                    assert(before.drop_last().push(before.last()) =~= before);
                }
            },
        }
    }
}

} // verus!
