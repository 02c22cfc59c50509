//! Ranking players by the games they play: who sits where, when to stop, and what is written down.

use vstd::prelude::*;
use vstd::string::*;
use crate::bb::Bitboard;
use crate::game::{boards_played, play};
use crate::util::Finite;

verus! {

/// The least time that a player gets for a move, in nanoseconds: 100 ms.
pub const MIN_BUDGET_NANOS: u64 = 100_000_000;

/// The time for a move, but not too little.
pub fn floored_budget(nanos: u64) -> (budget: u64)
    ensures
        budget == if nanos < 100_000_000 {
            100_000_000
        } else {
            nanos
        },
{
    if nanos < MIN_BUDGET_NANOS {
        MIN_BUDGET_NANOS
    } else {
        nanos
    }
}

/// After how many games a ranking stops: after forty, unless something else was said.
pub fn default_iters_stop(iters_stop: Option<usize>, has_stddev_stop: bool) -> (stop: Option<usize>)
    ensures
        stop == (if iters_stop is None && !has_stddev_stop {
            Some(40usize)
        } else {
            iters_stop
        }),
{
    match iters_stop {
        None => if has_stddev_stop {
            None
        } else {
            Some(40)
        },
        Some(n) => Some(n),
    }
}

/// After how many games a ranking stops: after forty, unless something else was said.
pub open spec fn games_to_stop(iters_stop: Option<usize>, stddev_stop: Option<Finite>) -> Option<
    usize,
> {
    if iters_stop is None && stddev_stop is None {
        Some(40usize)
    } else {
        iters_stop
    }
}

/// Whether a ranking stops: after enough games, or once the standard deviation is small enough.
pub open spec fn stops_at(
    iters_stop: Option<usize>,
    stddev_stop: Option<Finite>,
    iter: usize,
    stddev: Finite,
) -> bool {
    (iters_stop matches Some(n) && n <= iter) || (stddev_stop matches Some(x) && stddev.rank()
        <= x.rank())
}

/// Whether a ranking stops: after enough games, or once the standard deviation is small enough.
pub fn ranking_stops(
    iters_stop: Option<usize>,
    stddev_stop: Option<Finite>,
    iter: usize,
    stddev: Finite,
) -> (stops: bool)
    ensures
        stops == stops_at(iters_stop, stddev_stop, iter, stddev),
{
    let enough = match iters_stop {
        Some(n) => n <= iter,
        None => false,
    };
    let small = match stddev_stop {
        Some(x) => stddev.order() <= x.order(),
        None => false,
    };
    enough || small
}

/// What a ranking does next.
#[derive(Copy, Clone, Debug, PartialEq, Eq, Structural)]
pub enum RankStep {
    /// Play a game.
    Game {
        /// Whether the player who is ranked is sente.
        subject_is_sente: bool,
    },
    /// Stop: so many games have been played.
    Done(usize),
}

/// A ranking in progress.
#[derive(Copy, Clone, Debug)]
pub struct Ranking {
    pub iter: usize,
    pub iters_stop: Option<usize>,
    pub stddev_stop: Option<Finite>,
}

impl Ranking {
    /// A ranking that has not begun. Unless something else was said, it stops after forty games.
    pub fn new(iters_stop: Option<usize>, stddev_stop: Option<Finite>) -> (ranking: Ranking)
        ensures
            ranking.iter == 0,
            ranking.stddev_stop == stddev_stop,
            ranking.iters_stop == games_to_stop(iters_stop, stddev_stop),
    {
        Ranking {
            iter: 0,
            iters_stop: default_iters_stop(iters_stop, stddev_stop.is_some()),
            stddev_stop,
        }
    }

    /// What comes next, given how sure the ranking is now.
    pub fn next(&mut self, stddev: Finite) -> (step: RankStep)
        requires
            old(self).iter < usize::MAX,
        ensures
            ({
                let stops = stops_at(
                    old(self).iters_stop,
                    old(self).stddev_stop,
                    old(self).iter,
                    stddev,
                );
                &&& stops ==> step == RankStep::Done(old(self).iter) && *final(self) == *old(self)
                &&& !stops ==> {
                    &&& step == RankStep::Game { subject_is_sente: subject_first(old(self).iter) }
                    &&& *final(self) == (Ranking {
                        iter: (old(self).iter + 1) as usize,
                        ..*old(self)
                    })
                }
            }),
    {
        if ranking_stops(self.iters_stop, self.stddev_stop, self.iter, stddev) {
            return RankStep::Done(self.iter);
        }
        let subject_is_sente = subject_is_sente(self.iter);
        self.iter = self.iter + 1;
        RankStep::Game { subject_is_sente }
    }
}

/// Whether the player who is ranked is sente: in every other game, the first one included.
pub open spec fn subject_first(iter: usize) -> bool {
    iter % 2 == 0
}

/// Whether the player who is ranked is sente.
pub fn subject_is_sente(iter: usize) -> (sente: bool)
    ensures
        sente == subject_first(iter),
{
    iter % 2 == 0
}

/// What belongs to sente and to gote, of what belongs to the player who is ranked and to the one
/// it is ranked against.
pub fn seated<T>(subject_is_sente: bool, subject: T, baseline: T) -> (seats: (T, T))
    ensures
        seats == if subject_is_sente {
            (subject, baseline)
        } else {
            (baseline, subject)
        },
{
    if subject_is_sente {
        (subject, baseline)
    } else {
        (baseline, subject)
    }
}

/// The games that a player has won.
#[derive(Copy, Clone, Debug, PartialEq, Eq, Structural)]
pub struct WinRecord {
    pub wins: usize,
    pub wins_as_sente: usize,
    pub wins_as_gote: usize,
}

impl WinRecord {
    /// Whether each win was one as sente or one as gote.
    pub open spec fn wf(self) -> bool {
        self.wins == self.wins_as_sente + self.wins_as_gote
    }

    /// The record with one more win.
    pub open spec fn with_win(self, sente: bool) -> WinRecord {
        WinRecord {
            wins: (self.wins + 1) as usize,
            wins_as_sente: if sente {
                (self.wins_as_sente + 1) as usize
            } else {
                self.wins_as_sente
            },
            wins_as_gote: if sente {
                self.wins_as_gote
            } else {
                (self.wins_as_gote + 1) as usize
            },
        }
    }

    pub fn new() -> (record: WinRecord)
        ensures
            record == (WinRecord { wins: 0, wins_as_sente: 0, wins_as_gote: 0 }),
    {
        WinRecord { wins: 0, wins_as_sente: 0, wins_as_gote: 0 }
    }

    /// One more win.
    pub fn record_win(&mut self, sente: bool)
        requires
            old(self).wf(),
            old(self).wins < usize::MAX,
        ensures
            final(self).wf(),
            *final(self) == old(self).with_win(sente),
    {
        self.wins = self.wins + 1;
        match sente {
            true => self.wins_as_sente = self.wins_as_sente + 1,
            false => self.wins_as_gote = self.wins_as_gote + 1,
        }
    }
}

/// Games between a model and tree search, the model sente in every other one.
#[derive(Copy, Clone, Debug, PartialEq, Eq, Structural)]
pub struct Fight {
    pub games: usize,
    pub model: WinRecord,
    pub mcts: WinRecord,
}

impl Fight {
    /// Whether every game was won by one of the two.
    pub open spec fn wf(self) -> bool {
        &&& self.model.wf()
        &&& self.mcts.wf()
        &&& self.model.wins + self.mcts.wins == self.games
    }

    pub fn new() -> (fight: Fight)
        ensures
            fight.wf(),
            fight == tally(Seq::empty()),
    {
        Fight { games: 0, model: WinRecord::new(), mcts: WinRecord::new() }
    }

    /// Whether the model is sente in the next game.
    pub fn model_is_sente(&self) -> (sente: bool)
        ensures
            sente == subject_first(self.games),
    {
        subject_is_sente(self.games)
    }

    /// The record with one more game.
    pub open spec fn recorded(self, sente_win: bool) -> Fight {
        let by_model = sente_win == subject_first(self.games);
        Fight {
            games: (self.games + 1) as usize,
            model: if by_model {
                self.model.with_win(sente_win)
            } else {
                self.model
            },
            mcts: if by_model {
                self.mcts
            } else {
                self.mcts.with_win(sente_win)
            },
        }
    }

    /// The next game is over: the winner gets it on record.
    pub fn record(&mut self, sente_win: bool)
        requires
            old(self).wf(),
            old(self).games < usize::MAX,
        ensures
            final(self).wf(),
            *final(self) == old(self).recorded(sente_win),
    {
        if sente_win == self.model_is_sente() {
            self.model.record_win(sente_win);
        } else {
            self.mcts.record_win(sente_win);
        }
        self.games = self.games + 1;
    }
}

/// The record of games that were won by sente or not.
pub open spec fn tally(results: Seq<bool>) -> Fight
    decreases results.len(),
{
    if results.len() == 0 {
        Fight {
            games: 0,
            model: WinRecord { wins: 0, wins_as_sente: 0, wins_as_gote: 0 },
            mcts: WinRecord { wins: 0, wins_as_sente: 0, wins_as_gote: 0 },
        }
    } else {
        tally(results.drop_last()).recorded(results.last())
    }
}

/// Whether a game between the two can end with this result.
pub open spec fn can_end<S: Fn(Bitboard) -> Bitboard, G: Fn(Bitboard) -> Bitboard>(
    sente: S,
    gote: G,
    sente_win: bool,
) -> bool {
    exists|boards: Seq<Bitboard>|
        #[trigger] boards_played(boards, sente, gote) && boards.last().winner() == Some(sente_win)
}

/// Whether a game between the two can go on for longer than moves can be counted.
pub open spec fn can_go_on<S: Fn(Bitboard) -> Bitboard, G: Fn(Bitboard) -> Bitboard>(
    sente: S,
    gote: G,
) -> bool {
    exists|boards: Seq<Bitboard>|
        #[trigger] boards_played(boards, sente, gote) && boards.len() > u64::MAX
}

/// Whether each game can have ended as it did, the model being sente in every other one.
pub open spec fn can_have<M: Fn(Bitboard) -> Bitboard, T: Fn(Bitboard) -> Bitboard>(
    model: M,
    mcts: T,
    results: Seq<bool>,
) -> bool {
    forall|i: int|
        0 <= i < results.len() ==> if subject_first(i as usize) {
            can_end(model, mcts, #[trigger] results[i])
        } else {
            can_end(mcts, model, results[i])
        }
}

/// Let a model and tree search play so many games against each other, the model sente in every
/// other one. There is no record where a game does not end.
pub fn make_them_fight<M: Fn(Bitboard) -> Bitboard, T: Fn(Bitboard) -> Bitboard>(
    model: &M,
    mcts: &T,
    games: usize,
) -> (fight: Option<Fight>)
    requires
        forall|board: Bitboard| call_requires(*model, (board,)),
        forall|board: Bitboard| call_requires(*mcts, (board,)),
    ensures
        fight matches Some(fight) ==> fight.wf() && fight.games == games && exists|
            results: Seq<bool>,
        |
            #[trigger] can_have(*model, *mcts, results) && results.len() == games && fight == tally(
                results,
            ),
        fight is None ==> can_go_on(*model, *mcts) || can_go_on(*mcts, *model),
{
    let mut fight = Fight::new();
    let ghost mut results: Seq<bool> = Seq::empty();
    while fight.games < games
        invariant
            forall|board: Bitboard| call_requires(*model, (board,)),
            forall|board: Bitboard| call_requires(*mcts, (board,)),
            fight.wf(),
            fight.games <= games,
            fight.games == results.len(),
            fight == tally(results),
            can_have(*model, *mcts, results),
        decreases games - fight.games,
    {
        let sente_win = if fight.model_is_sente() {
            play(model, mcts)
        } else {
            play(mcts, model)
        };
        match sente_win {
            Some(win) => {
                fight.record(win);
                proof {
                    let more = results.push(win);
                    assert(more.drop_last() =~= results);
                    assert forall|i: int| 0 <= i < more.len() implies if subject_first(i as usize) {
                        can_end(*model, *mcts, #[trigger] more[i])
                    } else {
                        can_end(*mcts, *model, more[i])
                    } by {
                        if i < results.len() {
                            assert(results[i] == more[i]);
                        }
                    }
                    results = more;
                }
            },
            None => return None,
        }
    }
    Some(fight)
}

/// A match that is played until the ranking is sure enough.
pub trait RankedMatch: Sized {
    /// How sure the ranking is now.
    fn stddev(&self) -> Finite;

    /// Play a game and learn from it.
    fn game(self, subject_is_sente: bool) -> Self;
}

/// Whether the match, asked after `iter` games how sure the ranking is, can give an answer that
/// stops the ranking, or one that does not.
pub open spec fn judged<R: RankedMatch>(
    ranked: R,
    iters_stop: Option<usize>,
    stddev_stop: Option<Finite>,
    iter: usize,
    stops: bool,
) -> bool {
    exists|stddev: Finite| #[trigger]
        call_ensures(R::stddev, (&ranked,), stddev) && stops == stops_at(
            iters_stop,
            stddev_stop,
            iter,
            stddev,
        )
}

/// Whether the game after `iter` others leads from one stage of the match to the next: the ranking
/// did not stop before it, and the player who is ranked sat where it was its turn to sit.
pub open spec fn led_on<R: RankedMatch>(
    stages: Seq<R>,
    iters_stop: Option<usize>,
    stddev_stop: Option<Finite>,
    iter: int,
) -> bool {
    &&& judged(stages[iter], iters_stop, stddev_stop, iter as usize, false)
    &&& call_ensures(R::game, (stages[iter], subject_first(iter as usize)), stages[iter + 1])
}

/// Whether a match can go through these stages, with one game between each and the next.
pub open spec fn went_through<R: RankedMatch>(
    stages: Seq<R>,
    iters_stop: Option<usize>,
    stddev_stop: Option<Finite>,
) -> bool {
    forall|iter: int|
        0 <= iter < stages.len() - 1 ==> #[trigger] led_on(stages, iters_stop, stddev_stop, iter)
}

/// Play games until the ranking stops, and return the match after them and how many there were.
/// Unless something else was said, there are forty.
pub fn run_ranking<R: RankedMatch>(
    ranked: R,
    iters_stop: Option<usize>,
    stddev_stop: Option<Finite>,
) -> (done: (R, usize))
    ensures
        ({
            let (after, games) = done;
            let stop = games_to_stop(iters_stop, stddev_stop);
            &&& exists|stages: Seq<R>|
                {
                    &&& #[trigger] went_through(stages, stop, stddev_stop)
                    &&& stages.len() == games + 1
                    &&& stages[0] == ranked
                    &&& stages[games as int] == after
                }
            &&& games < usize::MAX ==> judged(after, stop, stddev_stop, games, true)
            &&& stop matches Some(n) ==> games <= n
            &&& stddev_stop is None ==> stop == Some(games)
        }),
{
    let mut current = ranked;
    let mut ranking = Ranking::new(iters_stop, stddev_stop);
    let ghost stop = games_to_stop(iters_stop, stddev_stop);
    let ghost mut stages: Seq<R> = seq![current];
    loop
        invariant
            ranking.stddev_stop == stddev_stop,
            ranking.iters_stop == stop,
            stop == games_to_stop(iters_stop, stddev_stop),
            stop matches Some(n) ==> ranking.iter <= n,
            went_through(stages, stop, stddev_stop),
            stages.len() == ranking.iter + 1,
            stages.last() == current,
            stages[0] == ranked,
        decreases usize::MAX - ranking.iter,
    {
        if ranking.iter == usize::MAX {
            return (current, ranking.iter);
        }
        let stddev = current.stddev();
        let ghost iter = ranking.iter;
        match ranking.next(stddev) {
            RankStep::Done(games) => {
                assert(judged(current, stop, stddev_stop, games, true));
                return (current, games);
            },
            RankStep::Game { subject_is_sente } => {
                assert(judged(current, stop, stddev_stop, iter, false));
                current = current.game(subject_is_sente);
                proof {
                    let before = stages;
                    stages = stages.push(current);
                    assert forall|i: int| 0 <= i < stages.len() - 1 implies #[trigger] led_on(
                        stages,
                        stop,
                        stddev_stop,
                        i,
                    ) by {
                        if i < iter {
                            assert(led_on(before, stop, stddev_stop, i));
                        }
                    }
                }
            },
        }
    }
}

/// The fields of a line, with commas between them.
pub open spec fn joined(fields: Seq<&str>, n: nat) -> Seq<char>
    decreases n,
{
    if n == 0 {
        Seq::empty()
    } else if n == 1 {
        fields[0]@
    } else {
        joined(fields, (n - 1) as nat) + ","@ + fields[n - 1]@
    }
}

/// A line of a table: its fields, with commas between them.
pub fn csv_line(fields: &Vec<&str>) -> (line: String)
    ensures
        line@ == joined(fields@, fields@.len()) + "\n"@,
{
    let mut line = String::new();
    let mut i: usize = 0;
    assert(line@ =~= joined(fields@, 0));
    while i < fields.len()
        invariant
            i <= fields@.len(),
            line@ == joined(fields@, i as nat),
        decreases fields@.len() - i,
    {
        if i > 0 {
            line.append(",");
        }
        line.append(fields[i]);
        assert(line@ =~= joined(fields@, (i + 1) as nat));
        i = i + 1;
    }
    line.append("\n");
    line
}

/// The last `n` checkpoints, or all of them where there are no more.
pub fn recent_checkpoints(checkpoints: Vec<String>, n: Option<usize>) -> (recent: Vec<String>)
    ensures
        recent@ == match n {
            Some(n) => if n < checkpoints@.len() {
                checkpoints@.skip(checkpoints@.len() - n)
            } else {
                checkpoints@
            },
            None => checkpoints@,
        },
{
    match n {
        Some(n) => {
            if n < checkpoints.len() {
                let mut checkpoints = checkpoints;
                let at: usize = checkpoints.len() - n;
                checkpoints.split_off(at)
            } else {
                checkpoints
            }
        },
        None => checkpoints,
    }
}

/// Which checkpoints are ranked.
pub enum RankTargets {
    /// Those of the model's directory.
    Stored(Vec<String>),
    /// The one at this path.
    Given(String),
    /// None: there are no checkpoints.
    NoCheckpoints,
}

/// Which checkpoints are ranked: all, or the one asked for, or the latest.
pub fn rank_targets(all: bool, given: Option<String>, checkpoints: Vec<String>) -> (targets:
    RankTargets)
    ensures
        all ==> targets == RankTargets::Stored(checkpoints),
        !all && given is Some ==> targets == RankTargets::Given(given->Some_0),
        !all && given is None && checkpoints@.len() == 0 ==> targets is NoCheckpoints,
        !all && given is None && checkpoints@.len() > 0 ==> {
            &&& targets matches RankTargets::Stored(names)
            &&& names@ == seq![checkpoints@.last()]
        },
{
    if all {
        return RankTargets::Stored(checkpoints);
    }
    match given {
        Some(path) => RankTargets::Given(path),
        None => {
            let mut checkpoints = checkpoints;
            match checkpoints.pop() {
                Some(latest) => {
                    let mut names: Vec<String> = Vec::new();
                    names.push(latest);
                    RankTargets::Stored(names)
                },
                None => RankTargets::NoCheckpoints,
            }
        },
    }
}

} // verus!
