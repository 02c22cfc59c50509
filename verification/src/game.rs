//! Games between players: whose turn it is, what each has spent, and who has won how often.

use std::ops::ControlFlow;
use std::time::Instant;

use vstd::prelude::*;
use vstd::string::*;
use crate::bb::{can_be_picked, pick_below, start_board, Bitboard};
use crate::board_laws::{
    a_game_keeps_count, is_reply, lemma_reply, moves_are_the_empty_cells, reachable,
};
use crate::clock::{nanos_since, now};
use crate::mcts2::{
    consulted, ended, grown_to, heard, scorable, search, searched, sente_at, MctsMonitor, MctsNode,
    MctsState, MctsStats,
};
use crate::text::same_text;
use crate::util::Finite;

verus! {

/// What a player has spent on a game.
#[derive(Copy, Clone, Debug, PartialEq, Eq, Structural)]
pub struct GameStats {
    pub num_plays: usize,
    pub total_nanos: u128,
    pub total_iters: usize,
}

impl GameStats {
    pub fn new() -> (stats: GameStats)
        ensures
            stats == (GameStats { num_plays: 0, total_nanos: 0, total_iters: 0 }),
    {
        GameStats { num_plays: 0, total_nanos: 0, total_iters: 0 }
    }

    /// Whether one more move can be counted.
    pub open spec fn has_room(self, nanos: u128, iters: usize) -> bool {
        &&& self.num_plays < usize::MAX
        &&& self.total_nanos + nanos <= u128::MAX
        &&& self.total_iters + iters <= usize::MAX
    }

    /// The same with one more move.
    pub open spec fn spent(self, nanos: u128, iters: usize) -> GameStats {
        GameStats {
            num_plays: (self.num_plays + 1) as usize,
            total_nanos: (self.total_nanos + nanos) as u128,
            total_iters: (self.total_iters + iters) as usize,
        }
    }

    /// Count one more move.
    fn add_move(&mut self, nanos: u128, iters: usize)
        requires
            old(self).has_room(nanos, iters),
        ensures
            *final(self) == old(self).spent(nanos, iters),
    {
        self.num_plays = self.num_plays + 1;
        self.total_nanos = self.total_nanos + nanos;
        self.total_iters = self.total_iters + iters;
    }

    /// Whether one more move can be counted.
    fn fits(&self, nanos: u128, iters: usize) -> (fits: bool)
        ensures
            fits == self.has_room(nanos, iters),
    {
        self.num_plays < usize::MAX && nanos <= u128::MAX - self.total_nanos && iters <= usize::MAX
            - self.total_iters
    }

    /// How many iterations a move took on average.
    pub fn iters_per_play(&self) -> (iters: usize)
        requires
            self.num_plays > 0,
        ensures
            iters == self.total_iters as int / self.num_plays as int,
    {
        self.total_iters / self.num_plays
    }
}

/// Per-side compute time and outcome of one game.
#[derive(Copy, Clone, Debug, PartialEq, Eq, Structural)]
pub struct GameOutcome {
    pub sente_win: bool,
    pub sente_stats: GameStats,
    pub gote_stats: GameStats,
}

impl GameOutcome {
    /// What the given player has spent.
    pub fn stats(&self, sente: bool) -> (stats: &GameStats)
        ensures
            *stats == if sente {
                self.sente_stats
            } else {
                self.gote_stats
            },
    {
        match sente {
            true => &self.sente_stats,
            false => &self.gote_stats,
        }
    }
}

/// What happens next in a game.
#[derive(Copy, Clone, Debug, PartialEq, Eq, Structural)]
pub enum Turn {
    Sente,
    Gote,
    Over(GameOutcome),
}

/// A game in progress.
#[derive(Copy, Clone, Debug)]
pub struct Game {
    pub board: Bitboard,
    pub sente_stats: GameStats,
    pub gote_stats: GameStats,
}

impl Game {
    /// Whether nothing but the opening move has been made.
    pub open spec fn opened(self) -> bool {
        &&& exists|opening: int|
            0 <= opening < 121 && can_be_picked(121, opening as usize) && self.board
                == #[trigger] start_board().played(opening)
        &&& self.sente_stats == (GameStats { num_plays: 0, total_nanos: 0, total_iters: 0 })
        &&& self.gote_stats == (GameStats { num_plays: 0, total_nanos: 0, total_iters: 0 })
    }

    /// A game in which sente has opened on the cell with index `opening`.
    pub fn opened_at(opening: usize) -> (game: Game)
        requires
            opening < 121,
        ensures
            game.board == start_board().played(opening as int),
            game.sente_stats == (GameStats { num_plays: 0, total_nanos: 0, total_iters: 0 }),
            game.gote_stats == (GameStats { num_plays: 0, total_nanos: 0, total_iters: 0 }),
    {
        Game {
            board: Bitboard::new().nth_child(opening),
            sente_stats: GameStats::new(),
            gote_stats: GameStats::new(),
        }
    }

    /// A game that starts on a random opening move, in an attempt to correct for first-player
    /// advantage.
    pub fn new() -> (game: Game)
        ensures
            game.opened(),
    {
        let opening: usize = pick_below(121);
        Game::opened_at(opening)
    }

    /// What happens next.
    pub fn turn(&self) -> (turn: Turn)
        ensures
            turn == (match self.board.winner() {
                Some(sente_win) => Turn::Over(
                    GameOutcome {
                        sente_win,
                        sente_stats: self.sente_stats,
                        gote_stats: self.gote_stats,
                    },
                ),
                None => if self.board.black_next() {
                    Turn::Sente
                } else {
                    Turn::Gote
                },
            }),
    {
        if let Some(sente_win) = self.board.win() {
            return Turn::Over(
                GameOutcome {
                    sente_win,
                    sente_stats: self.sente_stats,
                    gote_stats: self.gote_stats,
                },
            );
        }
        match self.board.sente() {
            true => Turn::Sente,
            false => Turn::Gote,
        }
    }

    /// The player whose turn it was has moved to `next`, for which it took so many iterations and
    /// nanoseconds.
    pub fn advance(&mut self, next: Bitboard, iters: usize, nanos: u128)
        requires
            old(self).sente_stats.has_room(nanos, iters),
            old(self).gote_stats.has_room(nanos, iters),
        ensures
            final(self).board == next,
            final(self).sente_stats == if old(self).board.black_next() {
                old(self).sente_stats.spent(nanos, iters)
            } else {
                old(self).sente_stats
            },
            final(self).gote_stats == if old(self).board.black_next() {
                old(self).gote_stats
            } else {
                old(self).gote_stats.spent(nanos, iters)
            },
    {
        if self.board.sente() {
            self.sente_stats.add_move(nanos, iters);
        } else {
            self.gote_stats.add_move(nanos, iters);
        }
        self.board = next;
    }
}

/// Whether the clock can say, when it is read, that so many nanoseconds have passed.
pub closed spec fn can_have_taken(nanos: u128) -> bool {
    exists|start: &Instant| #[trigger] call_ensures(nanos_since, (start,), nanos)
}

/// Whether the player to move on `board` may move to `next` in so many iterations.
pub open spec fn may_move<
    S: Fn(Bitboard) -> (Bitboard, usize),
    G: Fn(Bitboard) -> (Bitboard, usize),
>(board: Bitboard, sente: S, gote: G, next: Bitboard, iters: usize) -> bool {
    if board.black_next() {
        call_ensures(sente, (board,), (next, iters))
    } else {
        call_ensures(gote, (board,), (next, iters))
    }
}

/// Whether `after` is the game after the player to move has moved as `sente` or `gote` may.
pub open spec fn moved<S: Fn(Bitboard) -> (Bitboard, usize), G: Fn(Bitboard) -> (Bitboard, usize)>(
    before: Game,
    after: Game,
    sente: S,
    gote: G,
) -> bool {
    &&& before.board.winner() is None
    &&& exists|iters: usize, nanos: u128|
        {
            &&& #[trigger] before.sente_stats.has_room(nanos, iters)
            &&& before.gote_stats.has_room(nanos, iters)
            &&& may_move(before.board, sente, gote, after.board, iters)
            &&& can_have_taken(nanos)
            &&& after.sente_stats == if before.board.black_next() {
                before.sente_stats.spent(nanos, iters)
            } else {
                before.sente_stats
            }
            &&& after.gote_stats == if before.board.black_next() {
                before.gote_stats
            } else {
                before.gote_stats.spent(nanos, iters)
            }
        }
}

/// Whether the player to move may make a move that the counts have no room for.
pub open spec fn too_much<
    S: Fn(Bitboard) -> (Bitboard, usize),
    G: Fn(Bitboard) -> (Bitboard, usize),
>(game: Game, sente: S, gote: G) -> bool {
    &&& game.board.winner() is None
    &&& exists|next: Bitboard, iters: usize, nanos: u128|
        {
            &&& #[trigger] may_move(game.board, sente, gote, next, iters)
            &&& #[trigger] can_have_taken(nanos)
            &&& !(game.sente_stats.has_room(nanos, iters) && game.gote_stats.has_room(nanos, iters))
        }
}

/// Whether `games` is a game from its opening move on, move by move.
pub open spec fn played_on<
    S: Fn(Bitboard) -> (Bitboard, usize),
    G: Fn(Bitboard) -> (Bitboard, usize),
>(games: Seq<Game>, sente: S, gote: G) -> bool {
    &&& games.len() > 0
    &&& games[0].opened()
    &&& forall|i: int|
        0 <= i < games.len() - 1 ==> moved(#[trigger] games[i], games[i + 1], sente, gote)
}

/// Whether each board of a game was shown.
pub open spec fn was_shown<W: Fn(&Bitboard)>(games: Seq<Game>, show: W) -> bool {
    forall|i: int|
        0 <= i < games.len() ==> call_ensures(show, (&(#[trigger] games[i]).board,), ())
}

/// Play a game that starts on a random opening move. Each player makes its move and says how many
/// iterations that took; `show` is shown every board. There is no outcome where the counts of a
/// player overflow before the game ends.
pub fn play_game<
    S: Fn(Bitboard) -> (Bitboard, usize),
    G: Fn(Bitboard) -> (Bitboard, usize),
    W: Fn(&Bitboard),
>(sente: &S, gote: &G, show: &W) -> (outcome: Option<GameOutcome>)
    requires
        forall|board: Bitboard| call_requires(*sente, (board,)),
        forall|board: Bitboard| call_requires(*gote, (board,)),
        forall|board: &Bitboard| call_requires(*show, (board,)),
    ensures
        outcome matches Some(outcome) ==> exists|games: Seq<Game>|
            #[trigger] played_on(games, *sente, *gote) && games.last().board.winner() == Some(
                outcome.sente_win,
            ) && outcome.sente_stats == games.last().sente_stats && outcome.gote_stats
                == games.last().gote_stats && was_shown(games, *show),
        outcome is None ==> exists|games: Seq<Game>|
            #[trigger] played_on(games, *sente, *gote) && too_much(games.last(), *sente, *gote)
                && was_shown(games, *show),
{
    let mut game = Game::new();
    let ghost mut games = seq![game];
    loop
        invariant
            forall|board: Bitboard| call_requires(*sente, (board,)),
            forall|board: Bitboard| call_requires(*gote, (board,)),
            forall|board: &Bitboard| call_requires(*show, (board,)),
            played_on(games, *sente, *gote),
            games.last() == game,
            was_shown(games.drop_last(), *show),
        decreases
                (usize::MAX - game.sente_stats.num_plays) + (usize::MAX
                    - game.gote_stats.num_plays),
    {
        show(&game.board);
        assert(was_shown(games, *show)) by {
            assert forall|i: int| 0 <= i < games.len() implies call_ensures(
                *show,
                (&(#[trigger] games[i]).board,),
                (),
            ) by {
                if i < games.len() - 1 {
                    assert(games.drop_last()[i] == games[i]);
                }
            }
        }
        let is_sente = match game.turn() {
            Turn::Over(outcome) => {
                return Some(outcome);
            },
            Turn::Sente => true,
            Turn::Gote => false,
        };
        let start = now();
        let (next, iters) = if is_sente {
            sente(game.board)
        } else {
            gote(game.board)
        };
        let nanos: u128 = nanos_since(&start);
        assert(can_have_taken(nanos));
        assert(may_move(game.board, *sente, *gote, next, iters));
        if !game.sente_stats.fits(nanos, iters) || !game.gote_stats.fits(nanos, iters) {
            assert(too_much(game, *sente, *gote));
            return None;
        }
        let ghost before = game;
        game.advance(next, iters, nanos);
        proof {
            assert(before.sente_stats.has_room(nanos, iters));
            assert(moved(before, game, *sente, *gote));
            let more = games.push(game);
            assert forall|i: int| 0 <= i < more.len() - 1 implies moved(
                #[trigger] more[i],
                more[i + 1],
                *sente,
                *gote,
            ) by {
                if i < games.len() - 1 {
                    assert(moved(games[i], games[i + 1], *sente, *gote));
                }
            }
            assert(more.drop_last() =~= games);
            games = more;
        }
    }
}

/// Whether `boards` is a game from the empty board on, move by move, as the two players may move.
pub open spec fn boards_played<S: Fn(Bitboard) -> Bitboard, G: Fn(Bitboard) -> Bitboard>(
    boards: Seq<Bitboard>,
    sente: S,
    gote: G,
) -> bool {
    &&& boards.len() > 0
    &&& boards[0] == start_board()
    &&& forall|i: int|
        0 <= i < boards.len() - 1 ==> (#[trigger] boards[i]).winner() is None && if boards[i].black_next() {
            call_ensures(sente, (boards[i],), boards[i + 1])
        } else {
            call_ensures(gote, (boards[i],), boards[i + 1])
        }
}

/// Play a game from the empty board, and return whether sente won. There is no winner where the
/// players go on for longer than moves can be counted.
pub fn play<S: Fn(Bitboard) -> Bitboard, G: Fn(Bitboard) -> Bitboard>(
    sente: &S,
    gote: &G,
) -> (sente_win: Option<bool>)
    requires
        forall|board: Bitboard| call_requires(*sente, (board,)),
        forall|board: Bitboard| call_requires(*gote, (board,)),
    ensures
        sente_win matches Some(win) ==> exists|boards: Seq<Bitboard>|
            #[trigger] boards_played(boards, *sente, *gote) && boards.last().winner() == Some(win),
        sente_win is None ==> exists|boards: Seq<Bitboard>|
            #[trigger] boards_played(boards, *sente, *gote) && boards.len() > u64::MAX,
{
    let mut board = Bitboard::new();
    let ghost mut boards = seq![board];
    let mut turn: u64 = 0;
    while turn < u64::MAX
        invariant
            forall|board: Bitboard| call_requires(*sente, (board,)),
            forall|board: Bitboard| call_requires(*gote, (board,)),
            boards_played(boards, *sente, *gote),
            boards.last() == board,
            boards.len() == turn + 1,
        decreases u64::MAX - turn,
    {
        if let Some(win) = board.win() {
            return Some(win);
        }
        let next = if board.sente() {
            sente(board)
        } else {
            gote(board)
        };
        proof {
            let more = boards.push(next);
            assert forall|i: int| 0 <= i < more.len() - 1 implies (#[trigger] more[i]).winner() is None
                && if more[i].black_next() {
                call_ensures(*sente, (more[i],), more[i + 1])
            } else {
                call_ensures(*gote, (more[i],), more[i + 1])
            } by {
                if i < boards.len() - 1 {
                    assert(boards[i].winner() is None);
                }
            }
            boards = more;
        }
        board = next;
        turn = turn + 1;
    }
    None
}

/// Runs a search until it has played so many games.
pub struct MctsSims(pub u32);

impl<S> MctsMonitor<S> for MctsSims {
    open spec fn listens(&self) -> bool {
        true
    }

    open spec fn answers(&self, stats: &MctsStats<S>, stop: bool, after: Self) -> bool {
        stop == (stats.num_sims >= self.0) && after == *self
    }

    fn defer(&mut self, stats: &MctsStats<S>) -> (flow: ControlFlow<()>)
        ensures
            flow is Continue <==> stats.num_sims < old(self).0,
            *final(self) == *old(self),
    {
        match stats.num_sims < self.0 {
            true => ControlFlow::Continue(()),
            false => ControlFlow::Break(()),
        }
    }
}

/// Runs a search until it has played more than so many games.
pub struct MctsMoreSims(pub u32);

impl<S> MctsMonitor<S> for MctsMoreSims {
    open spec fn listens(&self) -> bool {
        true
    }

    open spec fn answers(&self, stats: &MctsStats<S>, stop: bool, after: Self) -> bool {
        stop == (stats.num_sims > self.0) && after == *self
    }

    fn defer(&mut self, stats: &MctsStats<S>) -> (flow: ControlFlow<()>)
        ensures
            flow is Break <==> stats.num_sims > old(self).0,
            *final(self) == *old(self),
    {
        match stats.num_sims > self.0 {
            true => ControlFlow::Break(()),
            false => ControlFlow::Continue(()),
        }
    }
}

/// Runs a search until so many nanoseconds have passed since it began.
pub struct MctsDeadline {
    start: Instant,
    budget_nanos: u128,
}

impl MctsDeadline {
    /// The time runs from now on.
    pub fn new(budget_nanos: u128) -> (deadline: MctsDeadline)
        ensures
            deadline.budget() == budget_nanos,
    {
        MctsDeadline { start: now(), budget_nanos }
    }

    /// How much time there is.
    pub closed spec fn budget(self) -> u128 {
        self.budget_nanos
    }

    /// Whether the clock can say, when it is read, that so many nanoseconds have passed.
    pub closed spec fn elapsed(self, nanos: u128) -> bool {
        call_ensures(nanos_since, (&self.start,), nanos)
    }

    /// Whether the time is up.
    pub fn passed(&self) -> (passed: bool)
        ensures
            exists|nanos: u128| #[trigger]
                self.elapsed(nanos) && passed == (nanos >= self.budget()),
    {
        let nanos: u128 = nanos_since(&self.start);
        assert(self.elapsed(nanos));
        !in_time(nanos, self.budget_nanos)
    }
}

/// Whether there is time left.
pub fn in_time(elapsed_nanos: u128, budget_nanos: u128) -> (left: bool)
    ensures
        left == (elapsed_nanos < budget_nanos),
{
    elapsed_nanos < budget_nanos
}

impl<S> MctsMonitor<S> for MctsDeadline {
    open spec fn listens(&self) -> bool {
        true
    }

    open spec fn answers(&self, stats: &MctsStats<S>, stop: bool, after: Self) -> bool {
        &&& after == *self
        &&& exists|nanos: u128| #[trigger]
            self.elapsed(nanos) && stop == (nanos >= self.budget())
    }

    fn defer(&mut self, stats: &MctsStats<S>) -> (flow: ControlFlow<()>)
        ensures
            *final(self) == *old(self),
            exists|nanos: u128| #[trigger]
                old(self).elapsed(nanos) && (flow is Break <==> nanos >= old(self).budget()),
    {
        match self.passed() {
            true => ControlFlow::Break(()),
            false => ControlFlow::Continue(()),
        }
    }
}

/// Whether a search guided by a model goes on: it makes a hundred iterations at least.
pub fn model_keeps_searching(iters: usize, time_left: bool) -> (on: bool)
    ensures
        on == (iters < 100 || time_left),
{
    iters < 100 || time_left
}

/// Whether a game can end on `board` after `n` moves, won by this player.
pub open spec fn ends_on(board: Bitboard, n: nat, black_win: bool) -> bool {
    reachable(board, n) && board.winner() == Some(black_win)
}

/// Whether a search on the board after `turn` moves, in which nobody has won, can lead to the next
/// one. Black's searches play more than `black_sims` games, white's more than `white_sims`.
pub open spec fn search_led_on<F: Fn(u32, u32, u32) -> Finite>(
    boards: Seq<Bitboard>,
    black_sims: u32,
    white_sims: u32,
    score: F,
    turn: int,
) -> bool {
    let sims = if turn % 2 == 0 {
        black_sims
    } else {
        white_sims
    };
    &&& boards[turn].winner() is None
    &&& searched(
        boards[turn],
        turn as usize,
        score,
        MctsMoreSims(sims),
        MctsMoreSims(sims),
        boards[turn + 1],
    )
}

/// Whether a game of tree search against itself can go through these boards.
pub open spec fn searched_through<F: Fn(u32, u32, u32) -> Finite>(
    boards: Seq<Bitboard>,
    black_sims: u32,
    white_sims: u32,
    score: F,
) -> bool {
    &&& boards.len() > 0
    &&& boards[0] == start_board()
    &&& forall|turn: int|
        0 <= turn < boards.len() - 1 ==> #[trigger] search_led_on(
            boards,
            black_sims,
            white_sims,
            score,
            turn,
        )
}

/// A search that is stopped after more than so many games has played more than that, and moves to
/// the state that most of them went through. Only one that has no room for more ends before.
pub proof fn a_search_plays_its_games<S: MctsState, F: Fn(u32, u32, u32) -> Finite>(
    state: S,
    depth: usize,
    score: F,
    sims: u32,
    after: MctsMoreSims,
    best: S,
)
    requires
        searched(state, depth, score, MctsMoreSims(sims), after, best),
    ensures
        after == MctsMoreSims(sims),
        exists|rounds: nat, root: MctsNode<'_, S>|
            {
                &&& #[trigger] grown_to(state, rounds, root, sente_at(depth), score)
                &&& root.num_sims > sims || root.full()
                &&& root.picks(best)
            },
{
    let (rounds, root, monitors, shown) = choose|
        rounds: nat,
        root: MctsNode<'_, S>,
        monitors: Seq<MctsMoreSims>,
        shown: Seq<MctsStats<S>>,
    |
        {
            &&& #[trigger] grown_to(state, rounds, root, sente_at(depth), score)
            &&& #[trigger] ended(state, root, sente_at(depth), score, monitors, shown, best)
            &&& monitors.first() == MctsMoreSims(sims)
            &&& monitors.last() == after
        };
    lemma_sims_stay(monitors, shown, !root.full(), monitors.len() - 1);
    if !root.full() {
        let last = shown.len() - 1;
        lemma_sims_stay(monitors, shown, true, last);
        assert(heard(monitors, shown, true, last));
    }
}

/// Being asked does not change how many games are to be played.
proof fn lemma_sims_stay<S>(
    monitors: Seq<MctsMoreSims>,
    shown: Seq<MctsStats<S>>,
    stopped: bool,
    i: int,
)
    requires
        consulted(monitors, shown, stopped),
        0 <= i < monitors.len(),
    ensures
        monitors[i] == monitors[0],
    decreases i,
{
    if i > 0 {
        lemma_sims_stay(monitors, shown, stopped, i - 1);
        assert(heard(monitors, shown, stopped, i - 1));
    }
}

/// A game of tree search against itself, black with `black_sims` games for each search and white
/// with `white_sims`. Returns whether black won, and after how many moves.
pub fn run_once<F: Fn(u32, u32, u32) -> Finite>(
    black_sims: u32,
    white_sims: u32,
    score: &F,
) -> (result: (bool, usize))
    requires
        scorable(*score),
    ensures
        exists|boards: Seq<Bitboard>|
            {
                &&& #[trigger] searched_through(boards, black_sims, white_sims, *score)
                &&& boards.len() == result.1 + 1
                &&& ends_on(boards.last(), result.1 as nat, result.0)
            },
{
    let mut board = Bitboard::new();
    let mut turn: usize = 0;
    let ghost mut boards: Seq<Bitboard> = seq![board];
    loop
        invariant
            searched_through(boards, black_sims, white_sims, *score),
            boards.len() == turn + 1,
            boards.last() == board,
            scorable(*score),
            reachable(board, turn as nat),
            board.wf(),
            board.stone_count() == turn,
            turn <= 121,
        decreases 121 - turn,
    {
        if let Some(win) = board.win() {
            return (win, turn);
        }
        let max_sims: u32 = match turn % 2 == 0 {
            true => black_sims,
            false => white_sims,
        };
        let mut monitor = MctsMoreSims(max_sims);
        let next = search(board, turn, score, &mut monitor);
        proof {
            a_search_plays_its_games(board, turn, *score, max_sims, monitor, next);
            let before = boards;
            boards = boards.push(next);
            assert forall|i: int| 0 <= i < boards.len() - 1 implies #[trigger] search_led_on(
                boards,
                black_sims,
                white_sims,
                *score,
                i,
            ) by {
                if i < turn {
                    assert(search_led_on(before, black_sims, white_sims, *score, i));
                }
            }
            let moves = board.moves_below(121);
            let states = MctsState::successors(&board);
            moves_are_the_empty_cells(board, 121);
            let i = choose|i: int| 0 <= i < states.len() && states[i] == next;
            let (m, child) = moves[i];
            assert(next == board.played(m as int));
            assert(is_reply(board, next));
            lemma_reply(board, next);
            assert(reachable(next, (turn + 1) as nat));
            a_game_keeps_count(next, (turn + 1) as nat);
        }
        board = next;
        turn = turn + 1;
    }
}

/// A player of a match: tree search, with even rollouts or not, or a model from a file.
#[derive(Debug)]
pub enum Strategy {
    Mcts,
    MctsExact,
    Model(String),
}

impl Strategy {
    /// What the player is called.
    pub open spec fn descriptor_spec(self) -> Seq<char> {
        match self {
            Strategy::Mcts => "mcts"@,
            Strategy::MctsExact => "mcts-exact"@,
            Strategy::Model(path) => "model:"@ + path@,
        }
    }

    /// The player that a path stands for.
    pub fn resolve(path: Option<&str>) -> (strategy: Strategy)
        ensures
            match path {
                None => strategy is Mcts,
                Some(path) => if path@ == "mcts-exact"@ {
                    strategy is MctsExact
                } else {
                    strategy matches Strategy::Model(file) && file@ == path@
                },
            },
    {
        match path {
            None => Strategy::Mcts,
            Some(path) => if same_text(path, "mcts-exact") {
                Strategy::MctsExact
            } else {
                Strategy::Model(path.to_owned())
            },
        }
    }

    /// What the player is called.
    pub fn descriptor(&self) -> (text: String)
        ensures
            text@ == self.descriptor_spec(),
    {
        let mut out = String::new();
        match self {
            Strategy::Mcts => out.append("mcts"),
            Strategy::MctsExact => out.append("mcts-exact"),
            Strategy::Model(path) => {
                out.append("model:");
                out.append(path.as_str());
            },
        }
        assert(out@ =~= self.descriptor_spec());
        out
    }
}

/// Whether moving to `next` wins at once, by the first move that does.
pub open spec fn first_win(board: Bitboard, next: Bitboard) -> bool {
    exists|n: int|
        {
            &&& 0 <= n < 121
            &&& #[trigger] board.wins_at(n)
            &&& next == board.played(n)
            &&& forall|m: int| 0 <= m < n ==> !#[trigger] board.wins_at(m)
        }
}

/// The move of a player, and how many iterations it took: one that wins at once, if there is one,
/// else the one that the player's own way of searching finds.
pub fn play_by<
    A: Fn(Bitboard) -> (Bitboard, usize),
    B: Fn(Bitboard) -> (Bitboard, usize),
    C: Fn(Bitboard) -> (Bitboard, usize),
>(strategy: &Strategy, board: Bitboard, by_model: &A, by_exact: &B, by_mcts: &C) -> (played: (
    Bitboard,
    usize,
))
    requires
        call_requires(*by_model, (board,)),
        call_requires(*by_exact, (board,)),
        call_requires(*by_mcts, (board,)),
    ensures
        (exists|n: int| 0 <= n < 121 && #[trigger] board.wins_at(n)) ==> first_win(board, played.0)
            && played.1 == 1,
        (forall|n: int| 0 <= n < 121 ==> !#[trigger] board.wins_at(n)) ==> match strategy {
            Strategy::Model(_) => call_ensures(*by_model, (board,), played),
            Strategy::MctsExact => call_ensures(*by_exact, (board,), played),
            Strategy::Mcts => call_ensures(*by_mcts, (board,), played),
        },
{
    match board.take_win() {
        Some(won) => (won, 1),
        None => match strategy {
            Strategy::Model(_) => by_model(board),
            Strategy::MctsExact => by_exact(board),
            Strategy::Mcts => by_mcts(board),
        },
    }
}

/// The players that are ranked: those of the paths, or tree search where there are none.
pub fn expand_subjects(paths: &Vec<String>) -> (subjects: Vec<Strategy>)
    ensures
        paths@.len() == 0 ==> subjects@.len() == 1 && subjects@[0] is Mcts,
        paths@.len() > 0 ==> {
            &&& subjects@.len() == paths@.len()
            &&& forall|i: int|
                0 <= i < paths@.len() ==> if paths@[i]@ == "mcts-exact"@ {
                    (#[trigger] subjects@[i]) is MctsExact
                } else {
                    subjects@[i] matches Strategy::Model(file) && file@ == paths@[i]@
                }
        },
{
    let mut subjects: Vec<Strategy> = Vec::new();
    if paths.len() == 0 {
        subjects.push(Strategy::resolve(None));
        return subjects;
    }
    let mut i: usize = 0;
    while i < paths.len()
        invariant
            i <= paths@.len(),
            subjects@.len() == i,
            forall|j: int|
                0 <= j < i ==> if paths@[j]@ == "mcts-exact"@ {
                    (#[trigger] subjects@[j]) is MctsExact
                } else {
                    subjects@[j] matches Strategy::Model(file) && file@ == paths@[j]@
                },
        decreases paths@.len() - i,
    {
        subjects.push(Strategy::resolve(Some(paths[i].as_str())));
        i = i + 1;
    }
    subjects
}

} // verus!
