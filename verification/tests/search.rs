use std::ops::ControlFlow;

use hex_table::agent::{
    mcts_thinking_task, should_stop, Agent, AgentThinker, ThinkData, ThinkHandle,
};
use hex_table::bb::{Bitboard, ExactMcts};
use hex_table::game::{
    expand_subjects, in_time, model_keeps_searching, play, play_by, play_game, run_once, Game,
    GameStats, MctsDeadline, MctsMoreSims, MctsSims, Strategy, Turn,
};
use hex_table::mcts::{self, MctsTree, Progress};
use hex_table::mcts2::{self, MctsBackprop, MctsMonitor, MctsNode, MctsStats};
use hex_table::rank::{
    csv_line, default_iters_stop, floored_budget, make_them_fight, rank_targets, ranking_stops,
    recent_checkpoints, run_ranking, seated, Fight, RankStep, RankTargets, RankedMatch, Ranking,
    WinRecord,
};
use hex_table::ui::{cell_at, Drawing, Ink, MainState, Shape};
use hex_table::util::{
    argmax, cumsum, place_of, sample_weighted, CumSum, Draw, Finite, NumPretty, Scale, SizePretty,
    F32,
};

fn finite(x: f64) -> Finite {
    assert!(x.is_finite());
    Finite::from_bits(x.to_bits())
}

fn uct(wins: u32, sims: u32, total: u32) -> Finite {
    let n = sims as f64;
    finite(wins as f64 / n + ((total as f64).ln() / n).sqrt())
}

fn tree_uct(wins: usize, rollouts: usize, total: usize) -> Finite {
    let n = rollouts as f32;
    let x = wins as f32 / n + std::f32::consts::SQRT_2 * ((total as f32).ln() / n).sqrt();
    finite(x as f64)
}

fn win_rate(wins: usize, rollouts: usize, _total: usize) -> Finite {
    finite((wins as f32 / rollouts as f32) as f64)
}

fn same(a: Bitboard, b: Bitboard) -> bool {
    a.black == b.black && a.white == b.white
}

/// A game of one pile: a move takes one or two, and who takes the last one wins.
#[derive(Copy, Clone, Debug, PartialEq)]
struct Pile {
    left: usize,
    sente: bool,
}

impl mcts::MctsState for Pile {
    fn init() -> Self {
        Pile { left: 4, sente: true }
    }

    fn max_move_count() -> usize {
        2
    }

    fn terminal(&self) -> Option<bool> {
        match self.left {
            0 => Some(!self.sente),
            _ => None,
        }
    }

    fn rollout(&self) -> bool {
        // With perfect play the player to move wins unless the pile is a multiple of three.
        self.sente == (self.left % 3 != 0)
    }

    fn children(&self) -> Vec<(usize, Self)> {
        (1..=2)
            .filter(|n| *n <= self.left)
            .map(|n| (n, Pile { left: self.left - n, sente: !self.sente }))
            .collect()
    }
}

impl mcts2::MctsState for Pile {
    fn init() -> Self {
        Pile { left: 4, sente: true }
    }

    fn max_move_count() -> usize {
        2
    }

    fn terminal(&self) -> Option<bool> {
        mcts::MctsState::terminal(self)
    }

    fn rollout(&self) -> bool {
        mcts::MctsState::rollout(self)
    }

    fn children(&self) -> Vec<Self> {
        mcts::MctsState::children(self).into_iter().map(|x| x.1).collect()
    }
}

#[test]
fn numbers_order_by_their_bits() {
    let xs = [-1.0e300, -2.0, -1.0, -1.0e-300, 0.0, 1.0e-300, 0.5, 1.0, 2.0, 1.0e300];
    for a in xs {
        assert_eq!(f64::from_bits(finite(a).into_inner()), a);
        for b in xs {
            assert_eq!(finite(a).order() < finite(b).order(), a < b);
        }
    }
    assert_eq!(finite(0.0).order(), finite(-0.0).order());
    let f = |x: f32| F32(x.to_bits());
    assert!(f(1.0).greater(f(0.5)));
    assert!(!f(0.5).greater(f(0.5)));
    assert!(f(-0.5).greater(f(-1.0)));
    assert!(!f(f32::NAN).greater(f(0.0)));
    assert!(!f(0.0).greater(f(f32::NAN)));
    assert!(f(f32::INFINITY).greater(f(f32::MAX)));
    assert_eq!(f(1.5).neg(), f(-1.5));
    assert_eq!(f(1.5).neg().neg(), f(1.5));
    assert!(f(-3.0).order() < f(2.0).order());
}

#[test]
fn argmax_takes_the_last_of_equals() {
    assert_eq!(argmax(&vec![]), None);
    assert_eq!(argmax(&vec![1, 3, 2, 3, 0]), Some(3));
    assert_eq!(argmax(&vec![-5]), Some(0));
    assert_eq!(argmax(&vec![7, 7, 7]), Some(2));
}

#[test]
fn running_totals_add_up() {
    let plus = |a: i32, b: i32| a + b;
    assert_eq!(cumsum(vec![1, 2, 3, 4], &plus), vec![1, 3, 6, 10]);
    assert_eq!(cumsum(Vec::<i32>::new(), &plus), Vec::<i32>::new());
    let mut sums = CumSum::new(vec![5, 6]);
    assert_eq!(sums.next(&plus), Some(5));
    assert_eq!(sums.next(&plus), Some(11));
    assert_eq!(sums.next(&plus), None);
    assert_eq!(sums.next(&plus), None);
    let f = |x: f32| F32(x.to_bits());
    let totals = vec![f(0.0), f(0.25), f(0.25), f(1.0)];
    assert_eq!(place_of(&totals, f(0.0)), Some(1));
    assert_eq!(place_of(&totals, f(0.25)), Some(3));
    assert_eq!(place_of(&totals, f(1.0)), None);
    assert_eq!(place_of(&vec![], f(0.0)), None);
}

#[test]
fn counts_and_sizes_have_units() {
    assert_eq!(NumPretty(0).text(""), "0");
    assert_eq!(NumPretty(999).text("x"), "999");
    assert_eq!(NumPretty(999).scale(), Scale::Whole);
    assert_eq!(NumPretty(1000).scale(), Scale::Over(1000));
    assert_eq!(NumPretty(1500).text("1.5"), "1.5k");
    assert_eq!(NumPretty(2_000_000).text("2.0"), "2.0M");
    assert_eq!(NumPretty(1_000_000_000).scale(), Scale::Over(1_000_000_000));
    assert_eq!(NumPretty(3_000_000_000).text("3.0"), "3.0G");
    assert_eq!(SizePretty(1023).text(""), "1023B");
    assert_eq!(SizePretty(1024).scale(), Scale::Over(1024));
    assert_eq!(SizePretty(1536).text("1.5"), "1.5KiB");
    assert_eq!(SizePretty(1 << 20).text("1.0"), "1.0MiB");
    assert_eq!(SizePretty(1 << 30).text("1.0"), "1.0GiB");
    assert_eq!(SizePretty(1 << 30).unit(), "GiB");
}

#[test]
fn a_tree_counts_what_its_children_count() {
    let mut tree: MctsTree<Pile> = MctsTree::new();
    assert_eq!(tree.size(), 1);
    assert_eq!(*tree.state(), Pile { left: 4, sente: true });
    tree.iter(&tree_uct);
    // The two children, each with one game.
    assert_eq!(tree.size(), 2);
    for _ in 0..200 {
        let before = tree.size();
        tree.iter(&tree_uct);
        assert!(tree.size() >= before);
    }
    // Taking one leaves three, which loses for the one to move.
    let tree = match tree.into_best(&win_rate) {
        Ok(tree) => tree,
        Err(_) => panic!("the game is not over"),
    };
    assert_eq!(*tree.state(), Pile { left: 3, sente: false });
    assert_eq!(tree.root_depth, 1);
}

#[test]
fn a_decided_tree_stays_where_it_is() {
    let mut tree: MctsTree<Pile> = MctsTree::new();
    for _ in 0..100 {
        tree.iter(&tree_uct);
    }
    let mut moves = 0;
    loop {
        if matches!(tree.root.children, mcts::MctsChildren::Unknown) {
            tree.iter(&tree_uct);
        }
        match tree.into_best(&win_rate) {
            Ok(next) => {
                tree = next;
                moves += 1;
            }
            Err(last) => {
                let size = last.size();
                let mut last = last;
                last.iter(&tree_uct);
                assert_eq!(last.size(), size + 1);
                assert_eq!(last.state().left, 0);
                break;
            }
        }
    }
    assert!((2..=4).contains(&moves));
}

#[test]
fn boards_can_be_searched_by_either_tree() {
    let mut tree: MctsTree<Bitboard> = MctsTree::new();
    assert!(same(*tree.state(), Bitboard::new()));
    assert_eq!(tree.size(), 1);
    tree.iter(&tree_uct);
    assert_eq!(tree.size(), 121);
    // One of the children is opened, and has 120 of its own.
    tree.iter(&tree_uct);
    assert_eq!(tree.size(), 240);
    assert!(same(*tree.state(), Bitboard::new()));
    let mut other: MctsTree<Bitboard> = MctsTree::new();
    other.iter(&tree_uct);
    let next = other.into_best(&win_rate).unwrap_or_else(|_| panic!("the game is not over"));
    assert_eq!(next.size(), 1);
    assert_eq!(next.state().depth(), 1);
    assert!(!next.state().sente());
    assert!(<Bitboard as mcts2::MctsState>::init().sente());
    assert!(same(<ExactMcts as mcts2::MctsState>::init().0, Bitboard::new()));
    let mut exact: MctsTree<ExactMcts> = MctsTree::new();
    exact.iter(&tree_uct);
    assert_eq!(exact.size(), 121);
    assert_eq!(<Bitboard as mcts::MctsState>::max_move_count(), 121);
    assert_eq!(<ExactMcts as mcts2::MctsState>::children(&exact.root.state).len(), 121);
}

#[test]
fn an_iteration_adds_what_it_reports() {
    let arena = bumpalo::Bump::new();
    let mut node = MctsNode::new(<Pile as mcts2::MctsState>::init());
    assert_eq!(node.num_sims, 1);
    let MctsBackprop { num_wins, num_sims, depth } = node.iter(&arena, true, &uct);
    assert_eq!((num_sims, depth), (2, 1));
    // Sente wins from three, not from two.
    assert_eq!(num_wins, 1);
    assert_eq!(node.num_sims, 3);
    let states: Vec<Pile> = node.children.as_ref().unwrap().iter().map(|c| c.state).collect();
    assert_eq!(states[0], Pile { left: 3, sente: false });
    for _ in 0..50 {
        let before = (node.num_wins, node.num_sims);
        let back = node.iter(&arena, true, &uct);
        assert_eq!(node.num_wins, before.0 + back.num_wins);
        assert_eq!(node.num_sims, before.1 + back.num_sims);
        let below: u32 = node.children.as_ref().unwrap().iter().map(|c| c.num_sims).sum();
        assert_eq!(node.num_sims, 1 + below);
    }
    assert_eq!(node.best(), Pile { left: 3, sente: false });
    assert_eq!(node.best_leaf().left, 0);
    let stats = node.stats(&arena, 1, 2);
    assert_eq!(stats.num_sims, node.num_sims);
    assert_eq!((stats.min_depth, stats.max_depth), (1, 2));
    assert_eq!(stats.best_state, node.best());
    assert!(stats.allocated_bytes > 0);
}

#[test]
fn a_decided_node_counts_a_hundred_games() {
    let arena = bumpalo::Bump::new();
    let mut node = MctsNode::new(Pile { left: 0, sente: false });
    let back = node.iter(&arena, false, &uct);
    assert_eq!((back.num_wins, back.num_sims, back.depth), (100, 100, 0));
    assert_eq!(node.num_sims, 101);
    assert!(node.children.is_none());
    let mut lost = MctsNode::new(Pile { left: 0, sente: true });
    let back = lost.iter(&arena, true, &uct);
    assert_eq!((back.num_wins, back.num_sims), (0, 100));
}

#[test]
fn a_search_finds_the_winning_move() {
    let best = mcts2::search(
        Pile { left: 5, sente: true },
        0,
        &uct,
        &mut |_: &MctsStats<Pile>| ControlFlow::Break(()),
    );
    assert_eq!(best, Pile { left: 3, sente: false });
}

#[test]
fn a_search_moves_to_a_child_of_the_board() {
    let mut b = Bitboard::new();
    for c in 0..10 {
        b = b.with_move(5, c).with_move(0, c);
    }
    let best = mcts2::search(b, b.depth(), &uct, &mut MctsSims(1000));
    assert_eq!(best.depth(), b.depth() + 1);
    assert_eq!(best.win(), Some(true));
    let exact = mcts2::search(ExactMcts(b), b.depth(), &uct, &mut MctsDeadline::new(1));
    assert_eq!(exact.0.depth(), b.depth() + 1);
}

#[test]
fn monitors_break_at_their_limits() {
    let stats = |num_sims: u32| MctsStats {
        num_wins: 0,
        num_sims,
        min_depth: 0,
        max_depth: 0,
        allocated_bytes: 0,
        best_state: (),
        best_state_leaf: (),
    };
    assert!(MctsSims(10).defer(&stats(9)).is_continue());
    assert!(MctsSims(10).defer(&stats(10)).is_break());
    assert!(MctsMoreSims(10).defer(&stats(10)).is_continue());
    assert!(MctsMoreSims(10).defer(&stats(11)).is_break());
    assert!(MctsDeadline::new(0).defer(&stats(1)).is_break());
    assert!(MctsDeadline::new(1_000_000_000_000).defer(&stats(1)).is_continue());
    assert!(in_time(4, 5) && !in_time(5, 5));
    assert!(model_keeps_searching(99, false));
    assert!(!model_keeps_searching(100, false));
    assert!(model_keeps_searching(100, true));
}

#[test]
fn thinking_ends_in_time() {
    assert!(!should_stop(499_999_999, 1_999_999_999, false));
    assert!(should_stop(500_000_000, 0, false));
    assert!(should_stop(0, 2_000_000_000, false));
    assert!(should_stop(0, 0, true));
}

#[derive(Clone)]
struct FirstMove;

impl AgentThinker for FirstMove {
    fn think(self, handle: ThinkHandle) {
        let data = handle.data();
        handle.report("thinking".to_string());
        handle.finish(data.board.nth_child(0));
    }
}

#[test]
fn a_task_is_shared() {
    let board = Bitboard::new();
    let (thinker, handle) = Agent::new(FirstMove).task(board, 3);
    assert_eq!(handle.data().turn, 3);
    assert!(handle.result().is_none());
    assert!(handle.message().is_none());
    assert!(!handle.data().aborted);
    let other = handle.clone();
    thinker.think(other);
    assert!(same(handle.result().unwrap(), board.nth_child(0)));
    assert_eq!(handle.message().as_deref(), Some("thinking"));
    handle.clone().abort();
    assert!(handle.data().aborted);
}

#[test]
fn an_aborted_task_still_gets_a_move() {
    let board = Bitboard::new().with_move(5, 5);
    let handle = ThinkHandle::new(board, 1);
    handle.abort();
    let next = mcts_thinking_task(&handle, &uct, &|stats: &MctsStats<Bitboard>, _nanos: u128| {
        format!("{} games", stats.num_sims)
    });
    assert_eq!(next.depth(), 2);
    assert!(same(handle.result().unwrap(), next));
    assert!(handle.message().unwrap().ends_with(" games"));
}

#[test]
fn a_game_of_tree_search_is_played_to_its_end() {
    let (_, turns) = run_once(0, 0, &uct);
    assert!((21..=121).contains(&turns));
}

#[test]
fn games_keep_the_books_of_both_players() {
    let mut game = Game::opened_at(60);
    assert_eq!(game.turn(), Turn::Gote);
    let next = game.board.nth_child(0);
    game.advance(next, 10, 500);
    assert_eq!(game.turn(), Turn::Sente);
    assert_eq!(game.gote_stats, GameStats { num_plays: 1, total_nanos: 500, total_iters: 10 });
    let next = game.board.nth_child(1);
    game.advance(next, 7, 5);
    assert_eq!(game.sente_stats, GameStats { num_plays: 1, total_nanos: 5, total_iters: 7 });
    assert_eq!(game.sente_stats.iters_per_play(), 7);
    let mut won = Bitboard::new();
    for c in 0..11 {
        won = won.with_move(5, c).with_move(0, c);
    }
    game.advance(won, 1, 1);
    match game.turn() {
        Turn::Over(outcome) => {
            assert!(outcome.sente_win);
            assert_eq!(outcome.stats(true).num_plays, 1);
            assert_eq!(outcome.stats(false).num_plays, 2);
        }
        _ => panic!("the game is over"),
    }
    for _ in 0..20 {
        assert_eq!(Game::new().board.depth(), 1);
    }
}

#[test]
fn players_are_told_by_their_paths() {
    assert_eq!(Strategy::resolve(None).descriptor(), "mcts");
    assert_eq!(Strategy::resolve(Some("mcts-exact")).descriptor(), "mcts-exact");
    assert_eq!(Strategy::resolve(Some("a/b")).descriptor(), "model:a/b");
    let all = expand_subjects(&vec![]);
    assert_eq!(all.len(), 1);
    assert_eq!(all[0].descriptor(), "mcts");
    let all = expand_subjects(&vec!["x".to_string(), "mcts-exact".to_string()]);
    assert_eq!(all.len(), 2);
    assert_eq!(all[0].descriptor(), "model:x");
    assert_eq!(all[1].descriptor(), "mcts-exact");
}

#[test]
fn rankings_stop_in_time() {
    assert_eq!(default_iters_stop(None, false), Some(40));
    assert_eq!(default_iters_stop(None, true), None);
    assert_eq!(default_iters_stop(Some(7), false), Some(7));
    assert!(ranking_stops(Some(3), None, 3, finite(9.0)));
    assert!(!ranking_stops(Some(3), None, 2, finite(0.0)));
    assert!(ranking_stops(None, Some(finite(0.5)), 0, finite(0.5)));
    assert!(!ranking_stops(None, Some(finite(0.5)), 99, finite(0.6)));
    let mut ranking = Ranking::new(Some(2), None);
    assert_eq!(ranking.next(finite(1.0)), RankStep::Game { subject_is_sente: true });
    assert_eq!(ranking.next(finite(1.0)), RankStep::Game { subject_is_sente: false });
    assert_eq!(ranking.next(finite(1.0)), RankStep::Done(2));
    assert_eq!(ranking.next(finite(1.0)), RankStep::Done(2));
    assert_eq!(Ranking::new(None, None).iters_stop, Some(40));
    assert_eq!(seated(true, "s", "b"), ("s", "b"));
    assert_eq!(seated(false, "s", "b"), ("b", "s"));
    assert_eq!(floored_budget(5), 100_000_000);
    assert_eq!(floored_budget(100_000_001), 100_000_001);
}

#[test]
fn wins_are_put_on_record() {
    let mut record = WinRecord::new();
    record.record_win(true);
    record.record_win(false);
    record.record_win(false);
    assert_eq!((record.wins, record.wins_as_sente, record.wins_as_gote), (3, 1, 2));
    let mut fight = Fight::new();
    assert!(fight.model_is_sente());
    fight.record(true);
    assert!(!fight.model_is_sente());
    fight.record(true);
    fight.record(false);
    fight.record(false);
    assert_eq!(fight.games, 4);
    assert_eq!(fight.model, WinRecord { wins: 2, wins_as_sente: 1, wins_as_gote: 1 });
    assert_eq!(fight.mcts, WinRecord { wins: 2, wins_as_sente: 1, wins_as_gote: 1 });
}

#[test]
fn tables_are_written_with_commas() {
    assert_eq!(csv_line(&vec!["a", "", "c"]), "a,,c\n");
    assert_eq!(csv_line(&vec!["only"]), "only\n");
    assert_eq!(csv_line(&vec![]), "\n");
}

#[test]
fn checkpoints_are_chosen() {
    let names = |n: usize| (0..n).map(|i| format!("c{i}")).collect::<Vec<String>>();
    assert_eq!(recent_checkpoints(names(5), Some(2)), vec!["c3", "c4"]);
    assert_eq!(recent_checkpoints(names(2), Some(2)), names(2));
    assert_eq!(recent_checkpoints(names(2), None), names(2));
    assert_eq!(recent_checkpoints(names(2), Some(0)), names(0));
    match rank_targets(false, None, names(3)) {
        RankTargets::Stored(x) => assert_eq!(x, vec!["c2"]),
        _ => panic!("there are checkpoints"),
    }
    match rank_targets(true, Some("p".to_string()), names(3)) {
        RankTargets::Stored(x) => assert_eq!(x, names(3)),
        _ => panic!("all are ranked"),
    }
    match rank_targets(false, Some("p".to_string()), names(3)) {
        RankTargets::Given(x) => assert_eq!(x, "p"),
        _ => panic!("one was asked for"),
    }
    assert!(matches!(rank_targets(false, None, vec![]), RankTargets::NoCheckpoints));
}

#[test]
fn clicks_make_moves() {
    let mut ui = MainState::new();
    assert_eq!(cell_at(-1, 0), None);
    assert_eq!(cell_at(0, 11), None);
    assert_eq!(cell_at(10, 3), Some((10, 3)));
    ui.mouse_motion(Some((1, 1)));
    ui.mouse_down(Some((1, 1)));
    ui.mouse_up(Some((1, 2)));
    assert_eq!(ui.turn, 0);
    ui.mouse_up(None);
    assert_eq!(ui.turn, 0);
    ui.mouse_up(Some((1, 1)));
    assert_eq!(ui.turn, 1);
    assert_eq!(ui.board.rc(1, 1), Some(true));
    // The cell is taken now.
    ui.mouse_up(Some((1, 1)));
    assert_eq!(ui.turn, 1);
    assert_eq!(ui.status_line("Idle"), "TURN:  1 BOT:Idle");
}

#[test]
fn the_bot_plays_gote() {
    let mut ui = MainState::new();
    let update = ui.update(None);
    assert!(update.think.is_none() && update.finished.is_none() && !update.abort);
    assert_eq!(ui.bot_message(None), "Idle");
    ui.board = ui.board.with_move(5, 5);
    ui.turn = 1;
    let update = ui.update(None);
    assert_eq!(update.think.unwrap().1, 1);
    assert!(ui.thinking);
    assert_eq!(ui.bot_message(None), "Thinking...");
    assert_eq!(ui.bot_message(Some("hm")), "hm");
    assert!(ui.update(None).think.is_none());
    let reply = ui.board.with_move(0, 0);
    ui.update(Some(reply));
    assert!(!ui.thinking);
    assert_eq!(ui.turn, 2);
    assert!(same(ui.board, reply));
    let mut won = Bitboard::new();
    for c in 0..11 {
        won = won.with_move(5, c).with_move(0, c);
    }
    ui.thinking = true;
    ui.board = won;
    let update = ui.update(None);
    assert!(same(update.finished.unwrap(), won));
    assert!(update.abort);
    assert!(same(ui.board, Bitboard::new()));
    assert_eq!(ui.turn, 0);
    assert!(!ui.thinking);
}

#[test]
fn the_board_is_drawn() {
    let mut ui = MainState::new();
    assert_eq!(ui.draw().len(), 121 + 44);
    ui.board = ui.board.with_move(0, 1);
    ui.cursor = Some((3, 4));
    let all = ui.draw();
    assert_eq!(all.len(), 121 + 1 + 44 + 1);
    assert_eq!(
        all[1],
        Drawing { shape: Shape::Piece, row: 0, col: 1, ink: Ink::Sente, sixths: 0 }
    );
    assert_eq!(all[2], Drawing { shape: Shape::Cell, row: 0, col: 1, ink: Ink::Grid, sixths: 0 });
    assert_eq!(
        all[122],
        Drawing { shape: Shape::Edge, row: 0, col: 0, ink: Ink::Sente, sixths: -1 }
    );
    assert_eq!(
        all[123],
        Drawing { shape: Shape::Edge, row: 0, col: 10, ink: Ink::Sente, sixths: 2 }
    );
    assert_eq!(
        all[144],
        Drawing { shape: Shape::Edge, row: 0, col: 0, ink: Ink::Gote, sixths: 1 }
    );
    assert_eq!(
        all[165],
        Drawing { shape: Shape::Edge, row: 10, col: 10, ink: Ink::Gote, sixths: -2 }
    );
    assert_eq!(all[166], Drawing { shape: Shape::Cell, row: 3, col: 4, ink: Ink::Gote, sixths: 0 });
}

/// Fills the board row by row.
fn next_free(board: Bitboard) -> Bitboard {
    board.nth_child((0..121).find(|n| board.nth_child_valid(*n)).unwrap())
}

/// Fills the board column by column.
fn next_down(board: Bitboard) -> Bitboard {
    let n = (0..121).map(|k| (k % 11) * 11 + k / 11).find(|n| board.nth_child_valid(*n));
    board.nth_child(n.unwrap())
}

#[test]
fn games_between_players_have_a_winner() {
    // Sente goes along the top row, gote down the first column but the corner; gote is one short
    // when sente is done.
    assert_eq!(play(&next_free, &next_down), Some(true));
    // The other way round sente goes down a column, gote along the rows.
    let win = play(&next_down, &next_free).unwrap();
    let mut board = Bitboard::new();
    while board.win().is_none() {
        board = if board.sente() { next_down(board) } else { next_free(board) };
    }
    assert_eq!(board.win(), Some(win));
    let fight = make_them_fight(&next_free, &next_down, 3).unwrap();
    assert_eq!(fight.games, 3);
    assert_eq!(fight.model.wins + fight.mcts.wins, 3);
    assert_eq!(fight.model.wins_as_sente, 2);
    assert_eq!(fight.model.wins_as_gote, if win { 0 } else { 1 });
    assert_eq!(make_them_fight(&next_free, &next_down, 0).unwrap(), Fight::new());
}

#[test]
fn timed_games_are_shown_and_counted() {
    let shown = std::cell::Cell::new(0usize);
    let outcome = play_game(
        &|b: Bitboard| (next_free(b), 3),
        &|b: Bitboard| (next_down(b), 5),
        &|_: &Bitboard| shown.set(shown.get() + 1),
    )
    .unwrap();
    let plays = outcome.sente_stats.num_plays + outcome.gote_stats.num_plays;
    assert_eq!(shown.get(), plays + 1);
    assert_eq!(outcome.sente_stats.total_iters, 3 * outcome.sente_stats.num_plays);
    assert_eq!(outcome.gote_stats.total_iters, 5 * outcome.gote_stats.num_plays);
    // More iterations than can be counted.
    let too_many = play_game(
        &|b: Bitboard| (next_free(b), usize::MAX),
        &|b: Bitboard| (next_down(b), usize::MAX),
        &|_: &Bitboard| {},
    );
    assert!(too_many.is_none());
}

struct Halving {
    stddev: f64,
    seats: Vec<bool>,
}

impl RankedMatch for Halving {
    fn stddev(&self) -> Finite {
        finite(self.stddev)
    }

    fn game(mut self, subject_is_sente: bool) -> Halving {
        self.stddev /= 2.0;
        self.seats.push(subject_is_sente);
        self
    }
}

#[test]
fn rankings_are_run() {
    let ranked = || Halving { stddev: 8.0, seats: Vec::new() };
    let (r, games) = run_ranking(ranked(), None, None);
    assert_eq!(games, 40);
    assert_eq!(r.seats.len(), 40);
    assert!(r.seats.iter().enumerate().all(|(i, s)| *s == (i % 2 == 0)));
    assert_eq!(run_ranking(ranked(), Some(5), None).1, 5);
    assert_eq!(run_ranking(ranked(), None, Some(finite(1.0))).1, 3);
    assert_eq!(run_ranking(ranked(), Some(2), Some(finite(1.0))).1, 2);
    assert_eq!(run_ranking(ranked(), Some(9), Some(finite(8.0))).1, 0);
    // Where none is allowed, none is played.
    let (r, games) = run_ranking(ranked(), Some(0), None);
    assert_eq!(games, 0);
    assert_eq!(r.stddev, 8.0);
    assert!(r.seats.is_empty());
}

#[test]
fn weights_are_drawn_by_size() {
    let f = |x: f32| F32(x.to_bits());
    let plus = |a: F32, b: F32| f(f32::from_bits(a.0) + f32::from_bits(b.0));
    let draw = |part: f32| move |total: F32| F32((part * f32::from_bits(total.0)).to_bits());
    let weights = vec![f(1.0), f(0.0), f(3.0)];
    assert_eq!(sample_weighted(vec![], &plus, &draw(0.0)), Draw::Nothing);
    assert_eq!(sample_weighted(weights.clone(), &plus, &draw(0.0)), Draw::At(0));
    assert_eq!(sample_weighted(weights.clone(), &plus, &draw(0.24)), Draw::At(0));
    assert_eq!(sample_weighted(weights.clone(), &plus, &draw(0.25)), Draw::At(2));
    assert_eq!(sample_weighted(weights.clone(), &plus, &draw(0.99)), Draw::At(2));
    assert_eq!(sample_weighted(weights, &plus, &draw(1.0)), Draw::Failed);
}

#[test]
fn a_search_ends_where_its_monitor_stops_it() {
    let shown = std::cell::RefCell::new(Vec::new());
    let mut monitor = |stats: &MctsStats<Bitboard>| {
        shown.borrow_mut().push((stats.num_sims, stats.best_state));
        if shown.borrow().len() == 3 {
            ControlFlow::Break(())
        } else {
            ControlFlow::Continue(())
        }
    };
    let board = Bitboard::new();
    let best = mcts2::search(board, 0, &uct, &mut monitor);
    let shown = shown.into_inner();
    assert_eq!(shown.len(), 3);
    assert!(shown[0].0 < shown[1].0 && shown[1].0 < shown[2].0);
    // What was shown last is what the search ends with.
    assert!(same(best, shown[2].1));
    assert_eq!(best.depth(), 1);
}

#[test]
fn data_of_a_task_change_one_at_a_time() {
    let board = Bitboard::new();
    let mut data = ThinkData::new(board, 7);
    assert!(same(data.board, board));
    assert_eq!((data.turn, data.message.as_deref(), data.aborted), (7, None, false));
    assert!(data.result.is_none());
    data.report("hm".to_string());
    assert_eq!((data.turn, data.message.as_deref(), data.aborted), (7, Some("hm"), false));
    data.abort();
    assert_eq!((data.turn, data.message.as_deref(), data.aborted), (7, Some("hm"), true));
    assert!(data.result.is_none());
    data.finish(board.nth_child(4));
    assert!(same(data.result.unwrap(), board.nth_child(4)));
    assert_eq!((data.turn, data.message.as_deref(), data.aborted), (7, Some("hm"), true));
}

#[test]
fn players_take_a_win_or_search() {
    let by = |iters: usize| move |board: Bitboard| (board.nth_child(0), iters);
    let (model, exact, mcts) = (by(2), by(3), by(4));
    let iters = |strategy: &Strategy, board: Bitboard| {
        play_by(strategy, board, &model, &exact, &mcts)
    };
    let board = Bitboard::new();
    let file = Strategy::Model("m".to_string());
    assert_eq!(iters(&file, board).1, 2);
    assert_eq!(iters(&Strategy::MctsExact, board).1, 3);
    assert_eq!(iters(&Strategy::Mcts, board).1, 4);
    assert!(same(iters(&Strategy::Mcts, board).0, board.nth_child(0)));
    let mut b = Bitboard::new();
    for c in 0..10 {
        b = b.with_move(5, c).with_move(0, c);
    }
    for strategy in [file, Strategy::MctsExact, Strategy::Mcts] {
        let (won, count) = iters(&strategy, b);
        assert_eq!((won.win(), count), (Some(true), 1));
    }
}

#[test]
fn progress_is_told_now_and_then() {
    let mut tree: MctsTree<Bitboard> = MctsTree::new();
    let mut progress = Progress::new();
    let lines = std::cell::RefCell::new(Vec::new());
    let rate = |wins: usize, rollouts: usize| format!("{:.6}", wins as f32 / rollouts as f32);
    let show = |line: &str| lines.borrow_mut().push(line.to_string());
    assert!(!progress.tell(&tree, &rate, &show));
    assert!(lines.borrow().is_empty());
    let start = std::time::Instant::now();
    while start.elapsed().as_millis() <= 210 {}
    tree.root.sente_wins = 1;
    tree.root.rollouts = 8;
    assert!(progress.tell(&tree, &rate, &show));
    assert!(!progress.tell(&tree, &rate, &show));
    assert_eq!(lines.into_inner(), vec!["\x1b[G    0         1/         8    0.125000".to_string()]);
}

#[test]
fn boards_with_cells_of_both_colors_can_be_searched() {
    // Gote has put a stone on sente's.
    let b = Bitboard::new().nth_child(60).nth_child(60);
    assert_eq!(b.win(), None);
    let next = mcts2::search(b, 2, &uct, &mut MctsSims(100));
    assert!((0..121).any(|n| b.nth_child_valid(n) && same(next, b.nth_child(n))));
    let handle = ThinkHandle::new(b, 2);
    handle.abort();
    mcts_thinking_task(&handle, &uct, &|_: &MctsStats<Bitboard>, _: u128| String::new());
    assert!(handle.result().is_some());
}
