//! Games of a model against itself: batches of boards to be evaluated, games in progress, and
//! finished games on their way to the controller.

use bytes::{Bytes, BytesMut};
use vstd::prelude::*;
use crate::bb::{start_board, Bitboard};
use crate::board_laws::transpose_mirrors_and_swaps;
use crate::nn::model::{EvalRequest, EvalResult, ModelConfig};
use crate::nn::search::{
    a_search_moves_on_its_board, decided_value, search, searched, Arithmetic, Evaluator, Monitor,
    Output,
};
use crate::nn::train::outbox::{
    buffer_len, buffered, extend_buffer, freeze_buffer, frozen, new_buffer,
};
use crate::nn::train::positions::{a_position_comes_back, position_bytes, Position};
use crate::nn::transform::{transposed_policy, Transpose};
use crate::util::F32;

verus! {

/// What an evaluator is told. `R` is where a result goes.
pub enum EvaluatorMsg<R> {
    Init(ModelConfig, Vec<u8>),
    ModelUpdated(Vec<u8>),
    Queue(Bitboard, R),
}

/// What an evaluator does next.
pub enum EvaluatorStep<R> {
    /// Load the parameters into the model.
    Load(Vec<u8>),
    /// Wait for more boards.
    Wait,
    /// Evaluate the boards and send each result where it goes.
    Run(Vec<EvalRequest>, Vec<R>),
    /// Give up: the model was there already.
    Unexpected,
}

/// Boards that wait to be evaluated together.
pub struct EvaluatorQueue<R> {
    pub reqs: Vec<EvalRequest>,
    pub rets: Vec<R>,
    pub batch_evals: usize,
}

impl<R> EvaluatorQueue<R> {
    /// Whether every board has a place for its result, and there are fewer than make a batch.
    pub open spec fn wf(self) -> bool {
        &&& self.reqs@.len() == self.rets@.len()
        &&& self.reqs@.len() < self.batch_evals || self.reqs@.len() == 0
    }

    /// An empty queue.
    pub fn new(batch_evals: usize) -> (queue: Self)
        ensures
            queue.wf(),
            queue.batch_evals == batch_evals,
            queue.reqs@.len() == 0,
    {
        Self { reqs: Vec::new(), rets: Vec::new(), batch_evals }
    }

    /// The first message holds the model; anything else is an error.
    pub fn first(msg: EvaluatorMsg<R>) -> (model: Option<(ModelConfig, Vec<u8>)>)
        ensures
            model == (match msg {
                EvaluatorMsg::Init(config, data) => Some((config, data)),
                _ => None,
            }),
    {
        match msg {
            EvaluatorMsg::Init(config, data) => Some((config, data)),
            _ => None,
        }
    }

    /// Take in a message. Once there are enough boards, all of them are to be evaluated.
    pub fn step(&mut self, msg: EvaluatorMsg<R>) -> (step: EvaluatorStep<R>)
        requires
            old(self).wf(),
        ensures
            final(self).wf(),
            final(self).batch_evals == old(self).batch_evals,
            match msg {
                EvaluatorMsg::Init(_, _) => step is Unexpected && *final(self) == *old(self),
                EvaluatorMsg::ModelUpdated(data) => step == EvaluatorStep::<R>::Load(data)
                    && *final(self) == *old(self),
                EvaluatorMsg::Queue(board, ret) => {
                    let full = old(self).reqs@.len() + 1 >= old(self).batch_evals;
                    &&& full ==> {
                        &&& step matches EvaluatorStep::Run(reqs, rets)
                        &&& with_request(old(self).reqs@, board, reqs@)
                        &&& rets@ == old(self).rets@.push(ret)
                        &&& final(self).reqs@.len() == 0
                    }
                    &&& !full ==> {
                        &&& step is Wait
                        &&& with_request(old(self).reqs@, board, final(self).reqs@)
                        &&& final(self).rets@ == old(self).rets@.push(ret)
                    }
                },
            },
    {
        match msg {
            EvaluatorMsg::Init(_, _) => EvaluatorStep::Unexpected,
            EvaluatorMsg::ModelUpdated(data) => EvaluatorStep::Load(data),
            EvaluatorMsg::Queue(board, ret) => {
                self.reqs.push(EvalRequest::new(board));
                self.rets.push(ret);
                assert(self.reqs@.drop_last() =~= old(self).reqs@);
                assert(with_request(old(self).reqs@, board, self.reqs@));
                if self.reqs.len() >= self.batch_evals {
                    let mut reqs: Vec<EvalRequest> = Vec::new();
                    let mut rets: Vec<R> = Vec::new();
                    std::mem::swap(&mut reqs, &mut self.reqs);
                    std::mem::swap(&mut rets, &mut self.rets);
                    EvaluatorStep::Run(reqs, rets)
                } else {
                    EvaluatorStep::Wait
                }
            },
        }
    }

    /// Nothing has come for a while: what there is is to be evaluated.
    pub fn timeout(&mut self) -> (batch: (Vec<EvalRequest>, Vec<R>))
        requires
            old(self).wf(),
        ensures
            final(self).wf(),
            final(self).batch_evals == old(self).batch_evals,
            final(self).reqs@.len() == 0,
            batch.0@ == old(self).reqs@,
            batch.1@ == old(self).rets@,
    {
        let mut reqs: Vec<EvalRequest> = Vec::new();
        let mut rets: Vec<R> = Vec::new();
        std::mem::swap(&mut reqs, &mut self.reqs);
        std::mem::swap(&mut rets, &mut self.rets);
        (reqs, rets)
    }

    /// Each result with the place it goes to.
    pub fn replies(rets: Vec<R>, results: Vec<EvalResult>) -> (replies: Vec<(R, EvalResult)>)
        requires
            rets@.len() == results@.len(),
        ensures
            replies@.len() == rets@.len(),
            forall|i: int|
                0 <= i < rets@.len() ==> #[trigger] replies@[i] == (rets@[i], results@[i]),
    {
        let ghost all_rets = rets@;
        let ghost all_results = results@;
        let mut results = results;
        let mut replies: Vec<(R, EvalResult)> = Vec::new();
        for ret in it: rets
            invariant
                it.seq() == all_rets,
                all_results.len() == all_rets.len(),
                replies@.len() == it.index(),
                results@ == all_results.skip(it.index() as int),
                forall|i: int|
                    0 <= i < replies@.len() ==> #[trigger] replies@[i] == (
                        all_rets[i],
                        all_results[i],
                    ),
        {
            let result = results.remove(0);
            assert(all_results.skip(it.index() as int).remove(0) =~= all_results.skip(
                it.index() as int + 1,
            ));
            replies.push((ret, result));
        }
        replies
    }
}

/// Whether `after` are the requests with one more for `board`.
pub open spec fn with_request(
    before: Seq<EvalRequest>,
    board: Bitboard,
    after: Seq<EvalRequest>,
) -> bool {
    &&& after.len() == before.len() + 1
    &&& after.drop_last() == before
    &&& after.last().board == board
    &&& after.last().transform.stack@.len() == 0
}

/// A game of a model against itself: the boards so far with the policies found for them, and the
/// board now.
pub struct SelfPlayGame {
    pub board: Bitboard,
    pub log: Vec<(Bitboard, Vec<F32>)>,
}

impl SelfPlayGame {
    /// A game that has not begun.
    pub fn new() -> (game: SelfPlayGame)
        ensures
            game.log@.len() == 0,
            game.board.wf(),
            game.board == start_board(),
    {
        SelfPlayGame { board: Bitboard::new(), log: Vec::new() }
    }

    /// Who has won, if the game is over.
    pub fn winner(&self) -> (winner: Option<bool>)
        ensures
            winner == self.board.winner(),
    {
        self.board.win()
    }

    /// Make a move that a search has found: up to the 29th one that was drawn, from then on the
    /// one visited most.
    pub fn advance(&mut self, out: Output)
        ensures
            final(self).log@.len() == old(self).log@.len() + 1,
            final(self).log@.drop_last() == old(self).log@,
            final(self).log@.last().0 == old(self).board,
            final(self).log@.last().1@ == out.policy@,
            final(self).board == if old(self).log@.len() + 1 < 30 {
                out.board_sample
            } else {
                out.board_best
            },
    {
        let next = if self.log.len() < 29 {
            out.board_sample
        } else {
            out.board_best
        };
        self.record(next, out.policy);
    }

    /// Make a move to `next` that was preferred by `policy`.
    pub fn record(&mut self, next: Bitboard, policy: Vec<F32>)
        ensures
            final(self).log@ == old(self).log@.push((old(self).board, policy)),
            final(self).board == next,
    {
        self.log.push((self.board, policy));
        self.board = next;
    }

    /// Play a game to its end, each move made by `mover`, which gives the next board and the policy
    /// that it goes by. A game that is not over when no more moves can be counted is broken off.
    pub fn play<M: Fn(Bitboard) -> (Bitboard, Vec<F32>)>(mover: &M) -> (game: Result<
        SelfPlayGame,
        SelfPlayGame,
    >)
        requires
            forall|board: Bitboard| call_requires(*mover, (board,)),
        ensures
            game matches Ok(game) ==> moved_by(game, *mover) && game.board.winner() is Some,
            game matches Err(game) ==> {
                &&& moved_by(game, *mover)
                &&& game.board.winner() is None
                &&& game.log@.len() == usize::MAX
            },
    {
        let mut game = SelfPlayGame::new();
        while game.winner().is_none()
            invariant
                forall|board: Bitboard| call_requires(*mover, (board,)),
                moved_by(game, *mover),
            decreases usize::MAX - game.log@.len(),
        {
            if game.log.len() == usize::MAX {
                return Err(game);
            }
            let ghost before = game;
            let (next, policy) = mover(game.board);
            game.record(next, policy);
            proof {
                lemma_moved_on(before, next, policy, game, *mover);
            }
        }
        Ok(game)
    }

    /// The positions of the game, each as the player to move saw it, once the game is over.
    pub fn positions(&self) -> (positions: Option<Vec<Position>>)
        requires
            forall|i: int| 0 <= i < self.log@.len() ==> (#[trigger] self.log@[i]).1@.len() == 121,
        ensures
            positions is None <==> self.board.winner() is None,
            positions matches Some(positions) ==> {
                &&& positions@.len() == self.log@.len()
                &&& forall|i: int|
                    0 <= i < self.log@.len() ==> is_seen(
                        #[trigger] positions@[i],
                        self.log@[i].0,
                        self.log@[i].1@,
                        self.board.winner() == Some(true),
                    )
            },
    {
        let value = match self.board.win() {
            Some(true) => F32(0x3f80_0000),
            Some(false) => F32(0xbf80_0000),
            None => return None,
        };
        let mut positions: Vec<Position> = Vec::new();
        let mut i: usize = 0;
        while i < self.log.len()
            invariant
                i <= self.log@.len(),
                forall|j: int|
                    0 <= j < self.log@.len() ==> (#[trigger] self.log@[j]).1@.len() == 121,
                value == decided_value(self.board.winner() == Some(true)),
                positions@.len() == i,
                forall|j: int|
                    0 <= j < i ==> is_seen(
                        #[trigger] positions@[j],
                        self.log@[j].0,
                        self.log@[j].1@,
                        self.board.winner() == Some(true),
                    ),
            decreases self.log@.len() - i,
        {
            positions.push(seen_position(self.log[i].0, &self.log[i].1, value));
            i = i + 1;
        }
        Some(positions)
    }
}

/// Whether `pos` is the position as the player to move saw it.
pub open spec fn is_seen(
    pos: Position,
    board: Bitboard,
    policy: Seq<F32>,
    sente_win: bool,
) -> bool {
    if board.black_next() {
        &&& pos.board == board
        &&& pos.value == decided_value(sente_win)
        &&& pos.policy@ == policy
    } else {
        &&& pos.board == board.transposed()
        &&& pos.value == decided_value(sente_win).negated()
        &&& pos.policy@ == transposed_policy(policy)
    }
}

/// The position as the player to move saw it.
fn seen_position(board: Bitboard, policy: &Vec<F32>, value: F32) -> (pos: Position)
    requires
        policy@.len() == 121,
        value == decided_value(true) || value == decided_value(false),
    ensures
        is_seen(pos, board, policy@, value == decided_value(true)),
        pos.policy@.len() == 121,
{
    let policy_copy = policy.clone();
    assert(policy_copy@ =~= policy@);
    let mut pos = Position { board, value, policy: policy_copy };
    if !pos.board.sente() {
        pos.apply_transform(&Transpose);
    }
    pos
}

/// The board of a game after `i + 1` moves.
pub open spec fn board_after(game: SelfPlayGame, i: int) -> Bitboard {
    if i + 1 < game.log@.len() {
        game.log@[i + 1].0
    } else {
        game.board
    }
}

/// Whether the game was played from the empty board on, each move made by `mover` on a board that
/// nobody had won.
pub open spec fn moved_by<M: Fn(Bitboard) -> (Bitboard, Vec<F32>)>(
    game: SelfPlayGame,
    mover: M,
) -> bool {
    &&& game.log@.len() == 0 ==> game.board == start_board()
    &&& game.log@.len() > 0 ==> game.log@[0].0 == start_board()
    &&& forall|i: int|
        0 <= i < game.log@.len() ==> {
            &&& (#[trigger] game.log@[i]).0.winner() is None
            &&& call_ensures(mover, (game.log@[i].0,), (board_after(game, i), game.log@[i].1))
        }
}

/// One more move by `mover`.
proof fn lemma_moved_on<M: Fn(Bitboard) -> (Bitboard, Vec<F32>)>(
    before: SelfPlayGame,
    next: Bitboard,
    policy: Vec<F32>,
    after: SelfPlayGame,
    mover: M,
)
    requires
        moved_by(before, mover),
        before.board.winner() is None,
        call_ensures(mover, (before.board,), (next, policy)),
        after.log@ == before.log@.push((before.board, policy)),
        after.board == next,
    ensures
        moved_by(after, mover),
{
    let n = before.log@.len() as int;
    assert forall|i: int| 0 <= i < after.log@.len() implies {
        &&& (#[trigger] after.log@[i]).0.winner() is None
        &&& call_ensures(mover, (after.log@[i].0,), (board_after(after, i), after.log@[i].1))
    } by {
        if i < n {
            assert(before.log@[i] == after.log@[i]);
            assert(board_after(after, i) == board_after(before, i));
        }
    }
    if n > 0 {
        assert(after.log@[0] == before.log@[0]);
    }
}

/// Whether a search on `board` after `i` moves can have led to `next` by `policy`.
#[verifier::opaque]
pub open spec fn found_by_search<E: Evaluator, A: Arithmetic, M: Monitor>(
    board: Bitboard,
    i: int,
    policy: Seq<F32>,
    next: Bitboard,
    dirichlet: F32,
    eval: &E,
    arith: &A,
    monitor: &M,
) -> bool {
    exists|out: Output|
        {
            &&& #[trigger] searched(board, dirichlet, F32(0), eval, arith, monitor, Some(out))
            &&& policy == out.policy@
            &&& next == if i + 1 < 30 {
                out.board_sample
            } else {
                out.board_best
            }
        }
}

/// Whether the game was played from the empty board on, each move found by a search.
pub open spec fn self_played<E: Evaluator, A: Arithmetic, M: Monitor>(
    game: SelfPlayGame,
    dirichlet: F32,
    eval: &E,
    arith: &A,
    monitor: &M,
) -> bool {
    &&& game.log@.len() == 0 ==> game.board == start_board()
    &&& game.log@.len() > 0 ==> game.log@[0].0 == start_board()
    &&& forall|i: int|
        0 <= i < game.log@.len() ==> {
            &&& (#[trigger] game.log@[i]).0.winner() is None
            &&& game.log@[i].1@.len() == 121
            &&& found_by_search(
                game.log@[i].0,
                i,
                game.log@[i].1@,
                board_after(game, i),
                dirichlet,
                eval,
                arith,
                monitor,
            )
        }
}

/// Play a game of a model against itself to its end. It is broken off where a search finds no
/// move.
pub fn self_play<E: Evaluator, A: Arithmetic, M: Monitor>(
    eval: &E,
    arith: &A,
    dirichlet: F32,
    monitor: &M,
) -> (game: Result<SelfPlayGame, SelfPlayGame>)
    requires
        monitor.listens(),
    ensures
        game matches Ok(game) ==> self_played(game, dirichlet, eval, arith, monitor)
            && game.board.winner() is Some,
        game matches Err(game) ==> {
            &&& self_played(game, dirichlet, eval, arith, monitor)
            &&& game.board.winner() is None
            &&& game.log@.len() < usize::MAX ==> searched(
                game.board,
                dirichlet,
                F32(0),
                eval,
                arith,
                monitor,
                None,
            )
        },
{
    let mut game = SelfPlayGame::new();
    loop
        invariant
            monitor.listens(),
            self_played(game, dirichlet, eval, arith, monitor),
        decreases usize::MAX - game.log@.len(),
    {
        if game.board.win().is_some() {
            return Ok(game);
        }
        if game.log.len() == usize::MAX {
            return Err(game);
        }
        let ghost before = game;
        match search(eval, arith, game.board, dirichlet, F32(0), monitor) {
            Some(out) => {
                let ghost found = out;
                proof {
                    a_search_moves_on_its_board(
                        game.board,
                        dirichlet,
                        F32(0),
                        eval,
                        arith,
                        monitor,
                        out,
                    );
                }
                game.advance(out);
                proof {
                    lemma_self_played_on(before, found, game, dirichlet, eval, arith, monitor);
                }
            },
            None => {
                return Err(game);
            },
        }
    }
}

/// One more move that a search has found.
proof fn lemma_self_played_on<E: Evaluator, A: Arithmetic, M: Monitor>(
    before: SelfPlayGame,
    out: Output,
    after: SelfPlayGame,
    dirichlet: F32,
    eval: &E,
    arith: &A,
    monitor: &M,
)
    requires
        self_played(before, dirichlet, eval, arith, monitor),
        before.board.winner() is None,
        searched(before.board, dirichlet, F32(0), eval, arith, monitor, Some(out)),
        out.policy@.len() == 121,
        after.log@.len() == before.log@.len() + 1,
        after.log@.drop_last() == before.log@,
        after.log@.last().0 == before.board,
        after.log@.last().1@ == out.policy@,
        after.board == if before.log@.len() + 1 < 30 {
            out.board_sample
        } else {
            out.board_best
        },
    ensures
        self_played(after, dirichlet, eval, arith, monitor),
{
    let n = before.log@.len() as int;
    assert(found_by_search(
        before.board,
        n,
        out.policy@,
        after.board,
        dirichlet,
        eval,
        arith,
        monitor,
    )) by {
        reveal(found_by_search);
    }
    assert forall|i: int| 0 <= i < after.log@.len() implies {
        &&& (#[trigger] after.log@[i]).0.winner() is None
        &&& after.log@[i].1@.len() == 121
        &&& found_by_search(
            after.log@[i].0,
            i,
            after.log@[i].1@,
            board_after(after, i),
            dirichlet,
            eval,
            arith,
            monitor,
        )
    } by {
        if i < n {
            assert(after.log@.drop_last()[i] == after.log@[i]);
            assert(before.log@[i].0.winner() is None);
            if i + 1 < n {
                assert(after.log@.drop_last()[i + 1] == after.log@[i + 1]);
            }
            assert(board_after(after, i) == board_after(before, i));
        }
    }
    if n > 0 {
        assert(after.log@.drop_last()[0] == after.log@[0]);
    }
}

/// Whether a search of a self play game goes on.
pub fn keep_searching(iters_done: usize, iters: usize) -> (on: bool)
    ensures
        on == (iters_done < iters),
{
    iters_done < iters
}

/// The bytes of a position, as the player to move sees it.
pub open spec fn seen_bytes(board: Bitboard, policy: Seq<F32>, sente_win: bool) -> Seq<u8> {
    if board.black_next() {
        position_bytes(board, decided_value(sente_win), policy)
    } else {
        position_bytes(
            board.transposed(),
            decided_value(sente_win).negated(),
            transposed_policy(policy),
        )
    }
}

/// The bytes of the positions of a finished game.
pub open spec fn game_bytes(log: Seq<(Bitboard, Vec<F32>)>, sente_win: bool) -> Seq<u8>
    decreases log.len(),
{
    if log.len() == 0 {
        Seq::empty()
    } else {
        game_bytes(log.drop_last(), sente_win) + seen_bytes(
            log.last().0,
            log.last().1@,
            sente_win,
        )
    }
}

/// What an uploader does next.
pub enum UploaderStep {
    /// Report that a game was not over.
    NotFinal,
    /// Wait for more games.
    Wait,
    /// Send the positions.
    Upload(Bytes),
}

/// Finished games that wait to be sent.
pub struct Uploader {
    pending: BytesMut,
}

impl Uploader {
    /// The bytes that wait.
    pub closed spec fn waiting(self) -> Seq<u8> {
        buffered(self.pending)
    }

    /// Whether no more wait than should.
    pub open spec fn wf(self) -> bool {
        self.waiting().len() <= 1_000_000
    }

    /// Nothing waits.
    pub fn new() -> (uploader: Uploader)
        ensures
            uploader.wf(),
            uploader.waiting().len() == 0,
    {
        Uploader { pending: new_buffer() }
    }

    /// Take all that waits.
    fn flush(&mut self) -> (bytes: Bytes)
        ensures
            frozen(bytes) == old(self).waiting(),
            final(self).waiting().len() == 0,
    {
        let mut full = new_buffer();
        std::mem::swap(&mut full, &mut self.pending);
        freeze_buffer(full)
    }

    /// Take in a game that ended on `board`. More than a million bytes are sent at once.
    pub fn queue(&mut self, log: &Vec<(Bitboard, Vec<F32>)>, board: Bitboard) -> (step:
        UploaderStep)
        requires
            old(self).wf(),
            1_000_000 + 520 * log@.len() <= isize::MAX,
            forall|i: int| 0 <= i < log@.len() ==> (#[trigger] log@[i]).1@.len() == 121,
        ensures
            final(self).wf(),
            step is NotFinal <==> board.winner() is None,
            board.winner() is None ==> final(self).waiting() == old(self).waiting(),
            board.winner() matches Some(sente_win) ==> {
                let all = old(self).waiting() + game_bytes(log@, sente_win);
                &&& all.len() > 1_000_000 ==> {
                    &&& step matches UploaderStep::Upload(bytes)
                    &&& frozen(bytes) == all
                    &&& final(self).waiting().len() == 0
                }
                &&& all.len() <= 1_000_000 ==> step is Wait && final(self).waiting() == all
            },
    {
        let value = match board.win() {
            Some(true) => F32(0x3f80_0000),
            Some(false) => F32(0xbf80_0000),
            None => return UploaderStep::NotFinal,
        };
        let ghost sente_win = board.winner() == Some(true);
        let ghost start = self.waiting();
        let mut i: usize = 0;
        assert(log@.take(0).len() == 0);
        assert(start + game_bytes(log@.take(0), sente_win) =~= start);
        while i < log.len()
            invariant
                i <= log@.len(),
                1_000_000 + 520 * log@.len() <= isize::MAX,
                forall|j: int| 0 <= j < log@.len() ==> (#[trigger] log@[j]).1@.len() == 121,
                value == decided_value(sente_win),
                self.waiting() == start + game_bytes(log@.take(i as int), sente_win),
                self.waiting().len() <= 1_000_000 + 520 * i,
            decreases log@.len() - i,
        {
            let board = log[i].0;
            let pos = seen_position(board, &log[i].1, value);
            let mut bytes: Vec<u8> = Vec::new();
            pos.serialize_into(&mut bytes);
            proof {
                let more = log@.take(i + 1);
                assert(more.drop_last() =~= log@.take(i as int));
                assert(bytes@ =~= seen_bytes(board, log@[i as int].1@, sente_win));
                a_position_comes_back(pos.board, pos.value, pos.policy@);
                assert(start + game_bytes(more, sente_win) =~= self.waiting() + bytes@);
            }
            extend_buffer(&mut self.pending, bytes.as_slice());
            i = i + 1;
        }
        assert(log@.take(i as int) =~= log@);
        if buffer_len(&self.pending) > 1_000_000 {
            UploaderStep::Upload(self.flush())
        } else {
            UploaderStep::Wait
        }
    }

    /// No game has come for a while: send what waits, if anything does.
    pub fn timeout(&mut self) -> (step: UploaderStep)
        requires
            old(self).wf(),
        ensures
            final(self).wf(),
            final(self).waiting().len() == 0,
            old(self).waiting().len() == 0 ==> step is Wait,
            old(self).waiting().len() > 0 ==> {
                &&& step matches UploaderStep::Upload(bytes)
                &&& frozen(bytes) == old(self).waiting()
            },
    {
        if buffer_len(&self.pending) > 0 {
            UploaderStep::Upload(self.flush())
        } else {
            UploaderStep::Wait
        }
    }
}

/// Every position that is sent has sente to move, and its value is that of the player who was to
/// move.
pub proof fn positions_are_seen_by_the_mover(
    board: Bitboard,
    policy: Seq<F32>,
    sente_win: bool,
)
    requires
        board.wf(),
        policy.len() == 121,
    ensures
        exists|seen: Bitboard, value: F32, moves: Seq<F32>|
            {
                &&& seen_bytes(board, policy, sente_win) == #[trigger] position_bytes(
                    seen,
                    value,
                    moves,
                )
                &&& seen.wf()
                &&& seen.black_next()
                &&& value == decided_value(sente_win == board.black_next())
                &&& moves.len() == 121
            },
{
    let value = decided_value(sente_win == board.black_next());
    if board.black_next() {
        assert(seen_bytes(board, policy, sente_win) == position_bytes(board, value, policy));
    } else {
        transpose_mirrors_and_swaps(board);
        assert(decided_value(sente_win).negated() == value);
        assert(seen_bytes(board, policy, sente_win) == position_bytes(
            board.transposed(),
            value,
            transposed_policy(policy),
        ));
    }
}

} // verus!
