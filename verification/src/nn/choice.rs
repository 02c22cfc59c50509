//! The move that a model makes: by a search, or by what it thinks at first sight.

use std::ops::ControlFlow;

use vstd::prelude::*;
use crate::bb::Bitboard;
use crate::nn::model::EvalResult;
use crate::nn::search::{
    a_search_moves_on_its_board, allowed, answers, f32_ranks, policy_argmax, policy_sums,
    policy_totals, search, searched, Arithmetic, Evaluator, Monitor, Output, Stats,
};
use crate::nn::show::{masked, masked_policy};
use crate::nn::train::selfplay::keep_searching;
use crate::util::{first_greater, is_last_max, place_of, F32};

verus! {

/// Lets a search make so many visits, and tells `progress` after each how many there were.
pub struct Visits<'a, G> {
    pub iters: usize,
    pub progress: &'a G,
}

impl<'a, G: Fn(usize)> Visits<'a, G> {
    pub fn new(iters: usize, progress: &'a G) -> (visits: Self)
        requires
            forall|n: usize| call_requires(*progress, (n,)),
        ensures
            visits.iters == iters,
            visits.progress == progress,
            visits.listens(),
    {
        Visits { iters, progress }
    }
}

impl<'a, G: Fn(usize)> Monitor for Visits<'a, G> {
    open spec fn listens(&self) -> bool {
        forall|n: usize| call_requires(*self.progress, (n,))
    }

    fn defer(&self, stats: Stats) -> (flow: ControlFlow<()>)
        ensures
            flow is Continue <==> stats.iters < self.iters,
            call_ensures(*self.progress, (stats.iters,), ()),
    {
        let progress = self.progress;
        progress(stats.iters);
        match keep_searching(stats.iters, self.iters) {
            true => ControlFlow::Continue(()),
            false => ControlFlow::Break(()),
        }
    }
}

/// A search makes as many visits as it was told to.
pub proof fn as_many_visits_as_asked_for<'a, G: Fn(usize)>(mon: &Visits<'a, G>, rounds: nat)
    requires
        0 < mon.iters,
        0 < rounds <= usize::MAX,
        allowed(mon, rounds),
    ensures
        rounds == mon.iters,
{
    if rounds > mon.iters {
        assert(answers(mon, mon.iters, true));
    }
    if rounds < mon.iters {
        assert(answers(mon, rounds as usize, false));
    }
}

/// A move that was chosen: the board after it, and its value where a search has found one.
#[derive(Copy, Clone, Debug)]
pub struct Choice {
    pub next: Bitboard,
    pub value: Option<F32>,
}

/// Whether this place can be drawn by the weights: the first whose running total is greater than
/// the threshold that `draw` makes of the whole total, if there is one.
pub open spec fn drawn_by<A: Arithmetic, D: Fn(F32) -> F32>(
    weights: Seq<F32>,
    arith: &A,
    draw: D,
    place: Option<usize>,
) -> bool {
    exists|sums: Seq<F32>, threshold: F32|
        {
            &&& #[trigger] policy_totals(weights, sums, arith)
            &&& #[trigger] call_ensures(draw, (sums.last(),), threshold)
            &&& match place {
                Some(n) => first_greater(sums, threshold, n as int),
                None => nothing_greater(sums, threshold),
            }
        }
}

/// Whether no number is greater than the threshold.
pub open spec fn nothing_greater(sums: Seq<F32>, threshold: F32) -> bool {
    forall|i: int| !first_greater(sums, threshold, i)
}

/// Whether this place can be drawn once the weights have been made sharper.
pub open spec fn sharply_drawn<A: Arithmetic, T: Fn(&Vec<F32>) -> Vec<F32>, D: Fn(F32) -> F32>(
    policy: &Vec<F32>,
    arith: &A,
    sharpen: T,
    draw: D,
    place: Option<usize>,
) -> bool {
    exists|weights: Vec<F32>|
        #[trigger] call_ensures(sharpen, (policy,), weights) && drawn_by(
            weights@,
            arith,
            draw,
            place,
        )
}

/// Draw a place once the weights have been made sharper.
fn draw_sharply<A: Arithmetic, T: Fn(&Vec<F32>) -> Vec<F32>, D: Fn(F32) -> F32>(
    policy: &Vec<F32>,
    arith: &A,
    sharpen: &T,
    draw: &D,
) -> (place: Option<usize>)
    requires
        policy@.len() == 121,
        sharpens(*sharpen),
        forall|total: F32| call_requires(*draw, (total,)),
    ensures
        sharply_drawn(policy, arith, *sharpen, *draw, place),
        place matches Some(n) ==> n < 121,
{
    let weights = sharpen(policy);
    let sums = policy_sums(&weights, arith);
    let threshold = draw(sums[sums.len() - 1]);
    let place = place_of(&sums, threshold);
    proof {
        assert(call_ensures(*sharpen, (policy,), weights));
        assert(policy_totals(weights@, sums@, arith));
        assert(call_ensures(*draw, (sums@.last(),), threshold));
        assert(drawn_by(weights@, arith, *draw, place));
    }
    place
}

/// Whether weights can be made sharper, as many as there are.
pub open spec fn sharpens<T: Fn(&Vec<F32>) -> Vec<F32>>(sharpen: T) -> bool {
    &&& forall|weights: &Vec<F32>| call_requires(sharpen, (weights,))
    &&& forall|weights: &Vec<F32>, sharper: Vec<F32>| #[trigger]
        call_ensures(sharpen, (weights,), sharper) ==> sharper@.len() == weights@.len()
}

/// Whether this can be chosen once a search has come to `out`: the move visited most, or one drawn
/// by how often it was visited. Nothing is chosen where nothing can be drawn.
pub open spec fn chosen_of<A: Arithmetic, T: Fn(&Vec<F32>) -> Vec<F32>, D: Fn(F32) -> F32>(
    board: Bitboard,
    arith: &A,
    sharpen: Option<&T>,
    draw: D,
    out: Option<Output>,
    choice: Option<Choice>,
) -> bool {
    match (out, sharpen) {
        (None, _) => choice is None,
        (Some(out), None) => choice == Some(
            Choice { next: out.board_best, value: Some(out.value_best) },
        ),
        (Some(out), Some(sharpen)) => exists|place: Option<usize>|
            #[trigger] sharply_drawn(&out.policy, arith, *sharpen, draw, place) && choice == (
            match place {
                Some(n) => Some(
                    Choice {
                        next: board.played(n as int),
                        value: Some(out.values@[n as int]),
                    },
                ),
                None => None,
            }),
    }
}

/// Whether this can be chosen of the policy of a board, which gives nothing to the cells that are
/// taken: the move that it prefers, or one drawn by it.
pub open spec fn chosen_at_sight<A: Arithmetic, T: Fn(&Vec<F32>) -> Vec<F32>, D: Fn(F32) -> F32>(
    board: Bitboard,
    arith: &A,
    sharpen: Option<&T>,
    draw: D,
    policy: Seq<F32>,
    choice: Option<Choice>,
) -> bool {
    match sharpen {
        None => exists|n: int|
            #[trigger] is_last_max(f32_ranks(masked(board, policy)), n) && choice == Some(
                Choice { next: board.played(n), value: None },
            ),
        Some(sharpen) => exists|legal: Vec<F32>, place: Option<usize>|
            {
                &&& legal@ == masked(board, policy)
                &&& #[trigger] sharply_drawn(&legal, arith, *sharpen, draw, place)
                &&& choice == (match place {
                    Some(n) => Some(Choice { next: board.played(n as int), value: None }),
                    None => None,
                })
            },
    }
}

/// The move that a model makes on `board`: by a search of so many visits, or at first sight where
/// there are to be none. Unless `sharpen` is given, it is the best move; else one is drawn by the
/// policy, once `sharpen` has been over it. There is none where none can be drawn.
pub fn choose_move<
    E: Evaluator,
    A: Arithmetic,
    G: Fn(usize),
    T: Fn(&Vec<F32>) -> Vec<F32>,
    D: Fn(F32) -> F32,
>(
    eval: &E,
    arith: &A,
    board: Bitboard,
    value_decay: F32,
    visits: &Visits<'_, G>,
    sharpen: Option<&T>,
    draw: &D,
) -> (choice: Option<Choice>)
    requires
        board.winner() is None,
        visits.listens(),
        sharpen matches Some(sharpen) ==> sharpens(*sharpen),
        forall|total: F32| call_requires(*draw, (total,)),
    ensures
        visits.iters > 0 ==> exists|out: Option<Output>|
            #[trigger] searched(board, F32(0), value_decay, eval, arith, visits, out) && chosen_of(
                board,
                arith,
                sharpen,
                *draw,
                out,
                choice,
            ),
        visits.iters == 0 ==> exists|result: EvalResult|
            #[trigger] call_ensures(E::call, (eval, board), result) && chosen_at_sight(
                board,
                arith,
                sharpen,
                *draw,
                result.policy@,
                choice,
            ),
{
    if visits.iters > 0 {
        let found = search(eval, arith, board, F32(0), value_decay, visits);
        let out = match found {
            Some(out) => out,
            None => {
                assert(chosen_of(board, arith, sharpen, *draw, None, None));
                return None;
            },
        };
        proof {
            a_search_moves_on_its_board(board, F32(0), value_decay, eval, arith, visits, out);
        }
        let choice = match sharpen {
            None => Some(Choice { next: out.board_best, value: Some(out.value_best) }),
            Some(sharpen) => match draw_sharply(&out.policy, arith, sharpen, draw) {
                Some(n) => Some(Choice { next: board.nth_child(n), value: Some(out.values[n]) }),
                None => None,
            },
        };
        assert(chosen_of(board, arith, sharpen, *draw, Some(out), choice));
        choice
    } else {
        let result = eval.call(board);
        let legal = masked_policy(board, &result.policy);
        let choice = match sharpen {
            None => match policy_argmax(&legal) {
                Some(n) => Some(Choice { next: board.nth_child(n), value: None }),
                None => None,
            },
            Some(sharpen) => match draw_sharply(&legal, arith, sharpen, draw) {
                Some(n) => Some(Choice { next: board.nth_child(n), value: None }),
                None => None,
            },
        };
        assert(chosen_at_sight(board, arith, sharpen, *draw, result.policy@, choice));
        choice
    }
}

} // verus!
