use std::cell::Cell;

use hex_table::bb::Bitboard;
use hex_table::nn::burn_load::{
    tensor_from_burn, BatchNormParams, Checkpoint, HexConvParams, InputParams, LayerParams,
    LoadError, PolicyParams, ResidualParams, TensorData, ValueParams,
};
use hex_table::nn::choice::{choose_move, Visits};
use hex_table::nn::constants::{BOARD_COLS, BOARD_ROWS, BOARD_SIZE};
use hex_table::nn::input::{batch_planes, hex_kernel_mask, number, positions_to_input};
use hex_table::nn::model::{
    evaluate, finish, prepare, seen_boards, EvalRequest, EvalResult, Model, ModelConfig,
};
use hex_table::nn::search::{
    conclude, policy_argmax, search, Arithmetic, Evaluator, Monitor, Node, Stats, Tree,
};
use hex_table::nn::show::{masked_policy, play_policy, position_text, Shade};
use hex_table::nn::train::positions::Position;
use hex_table::nn::train::selfplay::self_play;
use hex_table::nn::transform::{Either, Transform, Transforms, Transpose};
use hex_table::util::{Finite, F32};

fn f(x: f32) -> F32 {
    F32(x.to_bits())
}

fn x(f: F32) -> f32 {
    f32::from_bits(f.0)
}

fn same(a: Bitboard, b: Bitboard) -> bool {
    a.black == b.black && a.white == b.white
}

/// Single precision arithmetic, with a threshold that is a fixed part of the total.
struct Floats {
    part: f32,
    noises: Cell<usize>,
}

impl Floats {
    fn new(part: f32) -> Floats {
        Floats { part, noises: Cell::new(0) }
    }
}

impl Arithmetic for Floats {
    fn sum(&self, a: F32, b: F32) -> F32 {
        f(x(a) + x(b))
    }

    fn quotient(&self, a: F32, b: F32) -> F32 {
        f(x(a) / x(b))
    }

    fn count(&self, n: usize) -> F32 {
        f(n as f32)
    }

    fn denominator(&self, legal: &Vec<F32>) -> F32 {
        f(legal.iter().map(|p| x(*p)).sum::<f32>().max(1e-6))
    }

    fn first_play(&self, invert_value: bool, parent_value: F32) -> F32 {
        let sign = if invert_value { -1.0 } else { 1.0 };
        f(x(parent_value) - sign * 0.2)
    }

    fn puct(
        &self,
        invert_value: bool,
        value: F32,
        prior: F32,
        visits: usize,
        total: usize,
    ) -> Finite {
        let sign = if invert_value { -1.0 } else { 1.0 };
        let puct = sign * x(value)
            + 2.0 * x(prior) * (1.0 + total as f32).sqrt() / (1.0 + visits as f32);
        Finite::from_bits((puct as f64).to_bits())
    }

    fn decay(&self, value: F32, value_decay: F32) -> F32 {
        f(x(value) * (1.0 - x(value_decay)))
    }

    fn noise(&self, n: usize) -> Vec<F32> {
        self.noises.set(self.noises.get() + 1);
        (0..n).map(|i| f(if i == 0 { 1.0 } else { 0.0 })).collect()
    }

    fn mixed(&self, prior: F32, noise: F32, dirichlet: F32) -> F32 {
        f((1.0 - x(dirichlet)) * x(prior) + x(dirichlet) * x(noise))
    }

    fn threshold(&self, total: F32) -> F32 {
        f(self.part * x(total))
    }
}

/// Likes one cell more than the others, and thinks that the game is even.
struct Likes(usize);

impl Evaluator for Likes {
    fn call(&self, _board: Bitboard) -> EvalResult {
        let policy = (0..121).map(|n| f(if n == self.0 { 8.0 } else { 1.0 })).collect();
        EvalResult { policy, value: f(0.0) }
    }
}

fn almost_won() -> Bitboard {
    let mut b = Bitboard::new();
    for c in 0..10 {
        b = b.with_move(5, c).with_move(0, c);
    }
    b
}

#[test]
fn transposing_a_policy_mirrors_it() {
    let policy: Vec<F32> = (0..121).map(|n| f(n as f32)).collect();
    let tf = Transpose::new();
    let out = tf.apply_policy(policy.clone());
    assert_eq!(out.len(), 121);
    assert_eq!(x(out[1]), 11.0);
    assert_eq!(x(out[3 * 11 + 8]), 8.0 * 11.0 + 3.0);
    assert_eq!(tf.unapply_policy(out), policy);
    assert_eq!(x(tf.apply_value(f(0.5))), -0.5);
    assert_eq!(x(tf.unapply_value(tf.apply_value(f(0.5)))), 0.5);
    let b = Bitboard::new().with_move(1, 2);
    assert!(same(tf.apply_board(b), b.transpose()));
    assert!(same(tf.unapply_board(tf.apply_board(b)), b));
}

#[test]
fn transforms_are_undone_in_reverse() {
    let b = Bitboard::new().with_move(1, 2);
    let policy: Vec<F32> = (0..121).map(|n| f(n as f32)).collect();
    let mut tfs: Transforms<Transpose> = Transforms::new();
    assert!(same(tfs.apply_board(b), b));
    tfs.push(Transpose::new());
    assert!(same(tfs.apply_board(b), b.transpose()));
    assert_eq!(x(tfs.apply_value(f(1.0))), -1.0);
    tfs.push(Transpose::new());
    assert!(same(tfs.apply_board(b), b));
    assert_eq!(tfs.apply_policy(policy.clone()), policy);
    assert!(same(tfs.unapply_board(tfs.apply_board(b)), b));
    assert_eq!(tfs.unapply_policy(tfs.apply_policy(policy.clone())), policy);
    assert_eq!(x(tfs.unapply_value(tfs.apply_value(f(0.25)))), 0.25);
}

#[test]
fn model_names_tell_their_sizes() {
    assert_eq!(ModelConfig::new(12, 16, 64).id(), "v0-12-16-64");
    assert_eq!(ModelConfig::new(0, 1, 1000000).id(), "v0-0-1-1000000");
    assert_ne!(ModelConfig::new(1, 11, 1).id(), ModelConfig::new(11, 1, 1).id());
}

#[test]
fn boards_become_planes() {
    assert_eq!(BOARD_SIZE, BOARD_ROWS * BOARD_COLS);
    let b = Bitboard::new().with_move(0, 2).with_move(10, 10);
    let planes = batch_planes(&vec![Bitboard::new(), b]);
    assert_eq!(planes.len(), 484);
    assert!(planes[..242].iter().all(|p| x(*p) == 0.0));
    let ones: Vec<usize> = (242..484).filter(|i| x(planes[*i]) == 1.0).collect();
    assert_eq!(ones, vec![242 + 2, 242 + 121 + 120]);
    assert_eq!(x(number(true)), 1.0);
    assert_eq!(x(number(false)), 0.0);
}

#[test]
fn positions_become_training_input() {
    let a = Position {
        board: Bitboard::new(),
        value: f(1.0),
        policy: (0..121).map(|n| f(n as f32)).collect(),
    };
    let b = Position { board: Bitboard::new().with_move(0, 0), value: f(-1.0), ..a.clone() };
    let input = positions_to_input(&vec![&a, &b]);
    assert_eq!(input.boards.len(), 484);
    assert_eq!(x(input.boards[242]), 1.0);
    assert_eq!(input.policies.len(), 242);
    assert_eq!(x(input.policies[121 + 7]), 7.0);
    assert_eq!(input.values, vec![f(1.0), f(-1.0)]);
}

#[test]
fn kernels_are_masked_to_hexagons() {
    let mask: Vec<f32> = hex_kernel_mask(5).into_iter().map(x).collect();
    let rows: Vec<&[f32]> = mask.chunks(5).collect();
    assert_eq!(rows[0], [0.0, 0.0, 1.0, 1.0, 1.0]);
    assert_eq!(rows[1], [0.0, 1.0, 1.0, 1.0, 1.0]);
    assert_eq!(rows[2], [1.0, 1.0, 1.0, 1.0, 1.0]);
    assert_eq!(rows[3], [1.0, 1.0, 1.0, 1.0, 0.0]);
    assert_eq!(rows[4], [1.0, 1.0, 1.0, 0.0, 0.0]);
    let small: Vec<f32> = hex_kernel_mask(3).into_iter().map(x).collect();
    assert_eq!(small, vec![0.0, 1.0, 1.0, 1.0, 1.0, 1.0, 1.0, 1.0, 0.0]);
}

#[test]
fn the_network_sees_sente_to_move() {
    let sente = Bitboard::new();
    let gote = Bitboard::new().with_move(1, 2);
    let mut reqs = vec![EvalRequest::new(sente), EvalRequest::new(gote)];
    prepare(&mut reqs);
    let boards = seen_boards(&reqs);
    assert!(boards.iter().all(|b| b.sente()));
    assert!(same(boards[0], sente));
    assert!(same(boards[1], gote.transpose()));
    let policy: Vec<F32> = (0..242).map(|n| f(n as f32)).collect();
    let results = finish(&reqs, &policy, &vec![f(0.5), f(0.25)]);
    assert_eq!(x(results[0].policy[3]), 3.0);
    assert_eq!(x(results[0].value), 0.5);
    // What was said of (1, 0) is said of (0, 1).
    assert_eq!(x(results[1].policy[1]), 121.0 + 11.0);
    assert_eq!(x(results[1].value), -0.25);
}

#[test]
fn boards_are_evaluated_in_batches() {
    let gote = Bitboard::new().with_move(1, 2);
    let forward = |planes: &Vec<F32>, n: usize| {
        assert_eq!(planes.len(), 242 * n);
        let policy = (0..121 * n).map(|i| planes[242 * (i / 121) + 121 + i % 121]).collect();
        (policy, vec![f(0.75); n])
    };
    let results = evaluate(vec![EvalRequest::new(Bitboard::new()), EvalRequest::new(gote)], &forward);
    assert_eq!(results.len(), 2);
    assert!(results[0].policy.iter().all(|p| x(*p) == 0.0));
    assert_eq!(x(results[0].value), 0.75);
    // The network saw a white stone at (2, 1); the request has a black one at (1, 2).
    let ones: Vec<usize> = (0..121).filter(|n| x(results[1].policy[*n]) == 1.0).collect();
    assert_eq!(ones, vec![13]);
    assert_eq!(x(results[1].value), -0.75);
}

struct Constant(f32);

impl Model for Constant {
    type Device = ();

    fn load_bytes(self, bytes: Vec<u8>, _device: &()) -> Self {
        Constant(bytes[0] as f32)
    }

    fn into_bytes(self) -> Vec<u8> {
        vec![self.0 as u8]
    }

    fn eval_batch(&self, reqs: Vec<EvalRequest>, _device: &()) -> Vec<EvalResult> {
        reqs.iter()
            .map(|r| EvalResult { policy: vec![f(0.0); 121], value: f(self.0 + r.board.depth() as f32) })
            .collect()
    }
}

#[test]
fn one_board_is_a_batch_of_one() {
    let model = Constant(1.0).load_bytes(vec![7], &());
    let board = Bitboard::new().with_move(0, 0);
    assert_eq!(x(model.eval_one(EvalRequest::new(board), &()).value), 8.0);
    assert_eq!(model.into_bytes(), vec![7]);
}

#[test]
fn a_monitor_says_when_to_stop() {
    let mon = |n: usize| n < 3;
    assert!(mon.defer(Stats { iters: 2 }).is_continue());
    assert!(mon.defer(Stats { iters: 3 }).is_break());
}

#[test]
fn the_first_visit_evaluates_the_board() {
    let arith = Floats::new(0.5);
    let board = Bitboard::new().with_move(0, 0);
    let mut tree = Tree::new(board, f(0.0), f(0.0));
    tree.step(&Likes(5), &arith);
    assert_eq!(tree.root_visits, 1);
    let Node::Edges(edges) = &tree.root else {
        panic!("the game is not over");
    };
    assert_eq!(edges.len(), 120);
    assert_eq!(edges[0].action, 1);
    // 119 cells with 1 and one with 8.
    assert_eq!(x(edges[4].prior), 8.0 / 127.0);
    assert_eq!(x(edges[0].prior), 1.0 / 127.0);
    assert_eq!(arith.noises.get(), 0);
}

#[test]
fn visits_add_up() {
    let arith = Floats::new(0.5);
    let mut tree = Tree::new(Bitboard::new(), f(0.0), f(0.0));
    for n in 1..60 {
        tree.step(&Likes(60), &arith);
        assert_eq!(tree.root_visits, n);
        let Node::Edges(edges) = &tree.root else {
            panic!("the game is not over");
        };
        let total: usize = edges.iter().map(|e| e.visits).sum();
        assert_eq!(total, n - 1);
    }
    let policy = tree.policy(&arith);
    assert_eq!(policy.len(), 121);
    let sum: f32 = policy.iter().map(|p| x(*p)).sum();
    assert!((sum - 1.0).abs() < 1e-5);
    assert_eq!(policy_argmax(&policy), Some(60));
    assert_eq!(policy_argmax(&vec![]), None);
}

#[test]
fn noise_is_mixed_into_the_first_visit() {
    let arith = Floats::new(0.5);
    let mut tree = Tree::new(Bitboard::new(), f(0.25), f(0.0));
    tree.step(&Likes(5), &arith);
    tree.step(&Likes(5), &arith);
    assert_eq!(arith.noises.get(), 1);
    let Node::Edges(edges) = &tree.root else {
        panic!("the game is not over");
    };
    assert_eq!(x(edges[0].prior), 0.75 * (1.0 / 128.0) + 0.25);
    assert_eq!(x(edges[1].prior), 0.75 * (1.0 / 128.0));
}

#[test]
fn values_are_those_of_the_moves() {
    let arith = Floats::new(0.5);
    let board = almost_won();
    let mut tree = Tree::new(board, f(0.0), f(0.5));
    for _ in 0..400 {
        tree.step(&Likes(5 * 11 + 10), &arith);
    }
    // (5, 10) wins at once.
    assert_eq!(x(tree.value(65)), 1.0);
    let values = tree.values();
    assert_eq!(x(values[65]), 1.0);
    // There is a stone at (0, 0).
    assert!(x(values[0]).is_nan());
    assert_eq!(x(tree.value(0)), 0.0);
    // Half of a value is passed up from each move.
    assert!(x(tree.root_mean_value) <= 0.5);
    let out = tree.output(tree.policy(&arith), 65);
    assert_eq!(out.board_sample.win(), Some(true));
    assert_eq!(out.board_best.win(), Some(true));
    assert_eq!(x(out.value_sample), 1.0);
    assert_eq!(x(out.value_best), 1.0);
}

#[test]
fn a_search_ends_with_a_move() {
    let arith = Floats::new(0.5);
    let board = almost_won();
    let out = search(&Likes(65), &arith, board, f(0.0), f(0.0), &|n: usize| n < 300).unwrap();
    assert!(same(out.board_best, board.with_move(5, 10)));
    assert_eq!(out.policy.len(), 121);
    assert_eq!(out.values.len(), 121);
    // A threshold that no total is greater than draws nothing.
    let never = Floats::new(2.0);
    assert!(search(&Likes(65), &never, board, f(0.0), f(0.0), &|n: usize| n < 300).is_none());
    // After a single visit no move has a share.
    let mut tree = Tree::new(board, f(0.0), f(0.0));
    tree.step(&Likes(65), &arith);
    assert!(conclude(&tree, &arith).is_none());
}

#[test]
fn policies_are_masked() {
    let board = Bitboard::new().with_move(0, 0);
    let mut policy = vec![f(0.25); 121];
    policy[0] = f(0.9);
    policy[7] = f(0.5);
    let legal = masked_policy(board, &policy);
    assert_eq!(x(legal[0]), 0.0);
    assert_eq!(x(legal[7]), 0.5);
    assert_eq!(policy_argmax(&legal), Some(7));
    assert!(same(play_policy(board, &legal).unwrap(), board.nth_child(7)));
    assert!(play_policy(board, &vec![]).is_none());
}

#[test]
fn positions_are_shown_in_shades() {
    let board = Bitboard::new().with_move(0, 0).with_move(0, 1);
    let shades: Vec<Shade> =
        (0..121).map(|n| Shade { color: 232, number: format!("{:02}", n % 100) }).collect();
    let text = position_text(board, &shades);
    let lines: Vec<&str> = text.split('\n').collect();
    assert_eq!(lines.len(), 12);
    assert!(lines[0].starts_with(
        "\\\x1b[31m\x1b[48;5;232m○ \x1b[0m\x1b[36m\x1b[48;5;232m○ \x1b[0m\x1b[48;5;232;38;5;232m02\x1b[0m"
    ));
    assert!(lines[10].starts_with("          \\\x1b[48;5;232;38;5;232m10\x1b[0m"));
    assert!(lines[10].ends_with('\\'));
}

fn tensor(shape: Vec<usize>, n: usize) -> TensorData {
    TensorData { bytes: (0..n).flat_map(|i| (i as f32).to_le_bytes()).collect(), shape }
}

fn hex_conv() -> HexConvParams {
    HexConvParams { kernel: tensor(vec![4, 2, 3, 3], 72), bias: tensor(vec![4], 4) }
}

fn layer() -> LayerParams {
    LayerParams { weight: tensor(vec![2, 3], 6), bias: tensor(vec![3], 3) }
}

fn norm() -> BatchNormParams {
    BatchNormParams {
        gamma: tensor(vec![4], 4),
        beta: tensor(vec![4], 4),
        running_mean: tensor(vec![4], 4),
        running_var: tensor(vec![4], 4),
    }
}

fn checkpoint() -> Checkpoint {
    let block = || ResidualParams {
        conv0: hex_conv(),
        norm0: norm(),
        conv1: hex_conv(),
        norm1: norm(),
    };
    Checkpoint {
        input: InputParams { conv: hex_conv(), norm: norm() },
        residual: vec![block(), block()],
        policy: PolicyParams { conv: layer(), norm: norm(), linear: layer() },
        value: ValueParams { conv: layer(), norm: norm(), linear0: layer(), linear1: layer() },
    }
}

#[test]
fn checkpoints_are_renamed() {
    let c = checkpoint();
    assert_eq!(c.config(), ModelConfig::new(2, 4, 3));
    let params = c.params().unwrap();
    assert_eq!(params.len(), 24 + 24);
    let paths: Vec<&str> = params.iter().map(|p| p.path.as_str()).collect();
    assert_eq!(
        &paths[..8],
        &[
            "input.conv.weight",
            "input.conv.bias",
            "input.norm.weight",
            "input.norm.bias",
            "input.norm.running_mean",
            "input.norm.running_var",
            "residual.0.conv0.weight",
            "residual.0.conv0.bias",
        ]
    );
    assert_eq!(paths[18], "residual.1.conv0.weight");
    assert_eq!(paths[29], "residual.1.norm1.running_var");
    assert_eq!(paths[30], "policy.conv.weight");
    assert_eq!(&paths[44..], &["value.linear0.weight", "value.linear0.bias", "value.linear1.weight", "value.linear1.bias"]);
    // The weights of linear layers have their rows and columns exchanged.
    for p in params.iter() {
        let values: Vec<f32> = p.values.iter().map(|v| x(*v)).collect();
        if p.path.contains("linear") && p.path.ends_with(".weight") {
            assert_eq!(p.shape, vec![3, 2]);
            assert_eq!(values, vec![0.0, 3.0, 1.0, 4.0, 2.0, 5.0]);
        } else {
            assert_eq!(values.len(), p.shape.iter().product::<usize>());
            assert!(values.iter().enumerate().all(|(i, v)| *v == i as f32));
        }
    }
    assert_eq!(params[0].shape, vec![4, 2, 3, 3]);
    assert_eq!(x(params[0].values[71]), 71.0);
    let mut distinct = paths.clone();
    distinct.sort();
    distinct.dedup();
    assert_eq!(distinct.len(), paths.len());
}

#[test]
fn broken_tensors_are_refused() {
    let mut c = checkpoint();
    c.residual[1].norm0.beta.bytes.pop();
    assert_eq!(c.params().unwrap_err(), LoadError::ByteLength(15));
    c.input.conv.bias.bytes.truncate(2);
    assert_eq!(c.params().unwrap_err(), LoadError::ByteLength(2));
    assert_eq!(tensor_from_burn(&tensor(vec![2], 2)).unwrap(), vec![f(0.0), f(1.0)]);
    let odd = TensorData { bytes: vec![0; 7], shape: vec![] };
    assert_eq!(tensor_from_burn(&odd), Err(LoadError::ByteLength(7)));
    // The shape has to have room for the numbers, and a weight rows and columns.
    assert_eq!(tensor_from_burn(&tensor(vec![2, 2], 3)), Err(LoadError::Shape));
    assert_eq!(tensor_from_burn(&tensor(vec![], 1)).unwrap(), vec![f(0.0)]);
    assert_eq!(tensor_from_burn(&tensor(vec![usize::MAX, usize::MAX], 3)), Err(LoadError::Shape));
    assert_eq!(tensor_from_burn(&tensor(vec![usize::MAX, usize::MAX, 0], 0)).unwrap(), vec![]);
    let mut c = checkpoint();
    c.policy.linear.weight.shape = vec![6];
    assert_eq!(c.params().unwrap_err(), LoadError::Shape);
}

#[test]
fn a_model_plays_against_itself() {
    let arith = Floats::new(0.5);
    let game = match self_play(&Likes(60), &arith, f(0.25), &|n: usize| n < 12) {
        Ok(game) => game,
        Err(_) => panic!("the game was broken off"),
    };
    assert!(game.winner().is_some());
    assert_eq!(game.board.depth(), game.log.len());
    assert!(same(game.log[0].0, Bitboard::new()));
    assert!(game.log.iter().all(|x| x.1.len() == 121));
    assert_eq!(game.positions().unwrap().len(), game.log.len());
    // Without a move to draw the game is broken off at once.
    let never = Floats::new(2.0);
    match self_play(&Likes(60), &never, f(0.0), &|n: usize| n < 12) {
        Ok(_) => panic!("no move can be drawn"),
        Err(game) => assert!(game.log.is_empty()),
    }
}

#[test]
fn a_search_makes_as_many_visits_as_asked_for() {
    let seen = std::cell::RefCell::new(Vec::new());
    let progress = |n: usize| seen.borrow_mut().push(n);
    let visits = Visits::new(9, &progress);
    let arith = Floats::new(0.0);
    let out = search(&Likes(60), &arith, Bitboard::new(), f(0.0), f(0.0), &visits).unwrap();
    assert_eq!(seen.into_inner(), (1..=9).collect::<Vec<usize>>());
    // All visits but the first are to a move.
    let visited: Vec<f32> = out.policy.iter().map(|p| x(*p) * 8.0).collect();
    assert!(visited.iter().all(|v| *v == v.round()));
    assert_eq!(visited.iter().sum::<f32>(), 8.0);
}

#[test]
fn moves_are_chosen_by_search_or_at_sight() {
    let arith = Floats::new(0.0);
    let progress = |_: usize| {};
    let squared = |policy: &Vec<F32>| -> Vec<F32> {
        policy.iter().map(|p| f(x(*p) * x(*p))).collect()
    };
    let none: Option<&fn(&Vec<F32>) -> Vec<F32>> = None;
    let board = Bitboard::new();
    let at_sight = Visits::new(0, &progress);
    let searched = Visits::new(20, &progress);
    let half = |total: F32| f(0.5 * x(total));
    let nothing = |total: F32| f(2.0 * x(total));

    // The cell that is liked most, unless it is taken.
    let best =
        choose_move(&Likes(60), &arith, board, f(0.0), &at_sight, none, &half).unwrap();
    assert!(same(best.next, board.nth_child(60)));
    assert!(best.value.is_none());
    let taken = board.nth_child(60);
    let next =
        choose_move(&Likes(60), &arith, taken, f(0.0), &at_sight, none, &half).unwrap();
    assert!(same(next.next, taken.nth_child(120)));

    // The squares are 64 for the cell that is liked and one for each of the others.
    let draw = |part: f32| move |total: F32| f(part * x(total));
    let drawn = |part: f32| {
        let draw = draw(part);
        choose_move(&Likes(60), &arith, board, f(0.0), &at_sight, Some(&squared), &draw)
            .map(|c| c.next)
    };
    assert!(same(drawn(0.0).unwrap(), board.nth_child(0)));
    assert!(same(drawn(59.5 / 184.0).unwrap(), board.nth_child(59)));
    assert!(same(drawn(60.5 / 184.0).unwrap(), board.nth_child(60)));
    assert!(same(drawn(123.5 / 184.0).unwrap(), board.nth_child(60)));
    assert!(same(drawn(124.5 / 184.0).unwrap(), board.nth_child(61)));
    assert!(drawn(2.0).is_none());

    // A search finds the winning move, and what it is worth.
    let b = almost_won();
    let best = choose_move(&Likes(60), &arith, b, f(0.0), &searched, none, &half).unwrap();
    let out = search(&Likes(60), &arith, b, f(0.0), f(0.0), &|n: usize| n < 20).unwrap();
    assert!(same(best.next, out.board_best));
    assert_eq!(best.value, Some(out.value_best));
    let sharp = choose_move(&Likes(60), &arith, b, f(0.0), &searched, Some(&squared), &half);
    let n = (0..121).find(|n| same(b.nth_child(*n), sharp.unwrap().next)).unwrap();
    assert!(x(out.policy[n]) > 0.0);
    assert_eq!(sharp.unwrap().value, Some(out.values[n]));
    let failed = choose_move(&Likes(60), &arith, b, f(0.0), &searched, Some(&squared), &nothing);
    assert!(failed.is_none());
}

#[test]
fn transposed_boards_get_mirrored_results() {
    // Says something else of every board and every cell.
    let forward = |planes: &Vec<F32>, n: usize| {
        let mut policy = Vec::new();
        let mut value = Vec::new();
        for i in 0..n {
            let part = &planes[242 * i..242 * i + 242];
            let key: f32 = part.iter().enumerate().map(|(k, p)| k as f32 * x(*p)).sum();
            policy.extend((0..121).map(|k| f(key + k as f32)));
            value.push(f(key + 0.5));
        }
        (policy, value)
    };
    let a = Bitboard::new().with_move(1, 2).with_move(3, 4);
    let b = a.with_move(7, 0);
    let results = evaluate(vec![EvalRequest::new(a), EvalRequest::new(b)], &forward);
    let mirrored = evaluate(
        vec![EvalRequest::new(a.transpose()), EvalRequest::new(b.transpose())],
        &forward,
    );
    assert_eq!((results.len(), mirrored.len()), (2, 2));
    for i in 0..2 {
        assert_eq!(x(mirrored[i].value), -x(results[i].value));
        for r in 0..11 {
            for c in 0..11 {
                assert_eq!(mirrored[i].policy[11 * r + c], results[i].policy[11 * c + r]);
            }
        }
    }
    assert_ne!(results[0].value, results[1].value);
}

/// Turns values around and nothing else.
struct Negate;

impl Transform for Negate {
    fn apply_board(&self, board: Bitboard) -> Bitboard {
        board
    }

    fn apply_policy(&self, policy: Vec<F32>) -> Vec<F32> {
        policy
    }

    fn apply_value(&self, value: F32) -> F32 {
        f(-x(value))
    }

    fn unapply_board(&self, board: Bitboard) -> Bitboard {
        board
    }

    fn unapply_policy(&self, policy: Vec<F32>) -> Vec<F32> {
        policy
    }

    fn unapply_value(&self, value: F32) -> F32 {
        f(-x(value))
    }
}

#[test]
fn different_transforms_can_be_combined() {
    let b = Bitboard::new().with_move(1, 2);
    let policy: Vec<F32> = (0..121).map(|n| f(n as f32)).collect();
    let mut tfs: Transforms<Either<Transpose, Negate>> = Transforms::new();
    tfs.push(Either::First(Transpose));
    tfs.push(Either::Second(Negate));
    assert!(same(tfs.apply_board(b), b.transpose()));
    assert!(same(tfs.unapply_board(tfs.apply_board(b)), b));
    assert_eq!(x(tfs.apply_policy(policy.clone())[1]), 11.0);
    assert_eq!(tfs.unapply_policy(tfs.apply_policy(policy.clone())), policy);
    assert_eq!(x(tfs.apply_value(f(0.5))), 0.5);
    assert_eq!(x(Either::<Transpose, Negate>::Second(Negate).unapply_value(f(0.5))), -0.5);
}
