//! What a model is asked and what it answers.

use vstd::prelude::*;
use vstd::string::*;
use crate::bb::{flip, swapped, Bitboard};
use crate::board_laws::{
    transpose_mirrors_and_swaps, transpose_swaps_the_winner, transpose_undoes_itself,
};
use crate::nn::constants::BOARD_SIZE;
use crate::nn::input::{batch_planes, boards_planes};
use crate::nn::transform::{
    boards_of, policies_from, transpose_is_undoable, transposed_policy, values_from, Transform,
    Transforms, Transpose,
};
use crate::text::{
    decimal, decimals_tell_numbers_apart, lemma_decimal_digits, lemma_split_at_separator,
    push_decimal,
};
use crate::util::F32;

verus! {

/// A trained model that can evaluate Hex positions.
pub trait Model: Sized {
    type Device: Default;

    fn load_bytes(self, bytes: Vec<u8>, device: &Self::Device) -> Self;

    fn into_bytes(self) -> Vec<u8>;

    /// One result for each request, in their order.
    fn eval_batch(&self, reqs: Vec<EvalRequest>, device: &Self::Device) -> (results: Vec<
        EvalResult,
    >)
        ensures
            results@.len() == reqs@.len(),
    ;

    /// The result for a single request.
    fn eval_one(&self, req: EvalRequest, device: &Self::Device) -> (result: EvalResult)
        ensures
            exists|reqs: Vec<EvalRequest>, results: Vec<EvalResult>|
                reqs@ == seq![req] && #[trigger] call_ensures(
                    Self::eval_batch,
                    (self, reqs, device),
                    results,
                ) && result == results@[0],
    {
        let mut reqs: Vec<EvalRequest> = Vec::new();
        reqs.push(req);
        let ghost asked = reqs;
        let mut results = self.eval_batch(reqs, device);
        let ghost got = results;
        assert(call_ensures(Self::eval_batch, (self, asked, device), got));
        results.remove(0)
    }
}

/// A board to be evaluated, and how to look at it.
pub struct EvalRequest {
    pub board: Bitboard,
    pub transform: Transforms<Transpose>,
}

impl EvalRequest {
    pub fn new(board: Bitboard) -> (req: Self)
        ensures
            req.board == board,
            req.transform.stack@.len() == 0,
    {
        Self { board, transform: Transforms::new() }
    }
}

/// How likely each move is to be the best, and who is likely to win: from -1 for gote to 1 for
/// sente.
pub struct EvalResult {
    pub policy: Vec<F32>,
    pub value: F32,
}

/// The transforms of a request once it has been made ready: gote's boards are transposed.
pub open spec fn ready_stack(req: EvalRequest) -> Seq<Transpose> {
    if req.board.black_next() {
        req.transform.stack@
    } else {
        req.transform.stack@.push(Transpose)
    }
}

/// Let every board be seen by the player to move as sente sees it.
pub fn prepare(reqs: &mut Vec<EvalRequest>)
    ensures
        final(reqs)@.len() == old(reqs)@.len(),
        forall|i: int|
            0 <= i < old(reqs)@.len() ==> (#[trigger] final(reqs)@[i]).board == old(reqs)@[i].board
                && final(reqs)@[i].transform.stack@ == ready_stack(old(reqs)@[i]),
{
    let mut i: usize = 0;
    while i < reqs.len()
        invariant
            i <= reqs@.len(),
            reqs@.len() == old(reqs)@.len(),
            forall|j: int|
                0 <= j < i ==> (#[trigger] reqs@[j]).board == old(reqs)@[j].board
                    && reqs@[j].transform.stack@ == ready_stack(old(reqs)@[j]),
            forall|j: int| i <= j < reqs@.len() ==> #[trigger] reqs@[j] == old(reqs)@[j],
        decreases reqs@.len() - i,
    {
        let ghost before = reqs@;
        if !reqs[i].board.sente() {
            reqs[i].transform.push(Transpose::new());
        }
        assert(reqs@ =~= before.update(i as int, reqs@[i as int]));
        i = i + 1;
    }
}

/// The boards as the network is to see them.
pub fn seen_boards(reqs: &Vec<EvalRequest>) -> (boards: Vec<Bitboard>)
    ensures
        boards@.len() == reqs@.len(),
        forall|i: int|
            0 <= i < reqs@.len() ==> #[trigger] boards@[i] == reqs@[i].transform.board_of(
                reqs@[i].board,
            ),
{
    let mut boards: Vec<Bitboard> = Vec::new();
    let mut i: usize = 0;
    while i < reqs.len()
        invariant
            i <= reqs@.len(),
            boards@.len() == i,
            forall|j: int|
                0 <= j < i ==> #[trigger] boards@[j] == reqs@[j].transform.board_of(reqs@[j].board),
        decreases reqs@.len() - i,
    {
        boards.push(reqs[i].transform.apply_board(reqs[i].board));
        i = i + 1;
    }
    boards
}

/// What the network has said of the boards, seen from the boards that were asked for.
pub fn finish(reqs: &Vec<EvalRequest>, policy: &Vec<F32>, value: &Vec<F32>) -> (results: Vec<
    EvalResult,
>)
    requires
        policy@.len() >= 121 * reqs@.len(),
        value@.len() >= reqs@.len(),
    ensures
        results@.len() == reqs@.len(),
        forall|i: int|
            0 <= i < reqs@.len() ==> (#[trigger] results@[i]).policy@
                == reqs@[i].transform.policy_from(policy@.subrange(121 * i, 121 * i + 121))
                && results@[i].value == reqs@[i].transform.value_from(value@[i]),
{
    let mut results: Vec<EvalResult> = Vec::new();
    let mut i: usize = 0;
    while i < reqs.len()
        invariant
            i <= reqs@.len(),
            policy@.len() >= 121 * reqs@.len(),
            value@.len() >= reqs@.len(),
            results@.len() == i,
            forall|j: int|
                0 <= j < i ==> (#[trigger] results@[j]).policy@
                    == reqs@[j].transform.policy_from(policy@.subrange(121 * j, 121 * j + 121))
                    && results@[j].value == reqs@[j].transform.value_from(value@[j]),
        decreases reqs@.len() - i,
    {
        assert(policy@.len() == policy.len());
        let i0: usize = i * BOARD_SIZE;
        let mut part: Vec<F32> = Vec::new();
        let mut k: usize = 0;
        while k < BOARD_SIZE
            invariant
                k <= 121,
                i0 == 121 * i,
                i0 + 121 <= policy@.len(),
                i0 + 121 <= usize::MAX,
                part@ == policy@.subrange(i0 as int, i0 + k),
            decreases 121 - k,
        {
            part.push(policy[i0 + k]);
            assert(part@ =~= policy@.subrange(i0 as int, i0 + k + 1));
            k = k + 1;
        }
        let policy = reqs[i].transform.unapply_policy(part);
        let value = reqs[i].transform.unapply_value(value[i]);
        results.push(EvalResult { policy, value });
        i = i + 1;
    }
    results
}

/// The boards of the requests, as the network is to see them.
pub open spec fn shown(reqs: Seq<EvalRequest>) -> Seq<Bitboard> {
    Seq::new(
        reqs.len(),
        |i: int|
            boards_of(ready_stack(reqs[i]), ready_stack(reqs[i]).len(), reqs[i].board),
    )
}

/// Whether `result` is what the network says of a board, seen from the board that was asked for.
pub open spec fn tells(req: EvalRequest, policy: Seq<F32>, value: F32, result: EvalResult) -> bool {
    &&& result.policy@ == policies_from(ready_stack(req), ready_stack(req).len(), policy)
    &&& result.value == values_from(ready_stack(req), ready_stack(req).len(), value)
}

/// Whether the network can give these results: there is one for each request, in their order.
pub open spec fn evaluated<F: Fn(&Vec<F32>, usize) -> (Vec<F32>, Vec<F32>)>(
    reqs: Seq<EvalRequest>,
    forward: F,
    results: Seq<EvalResult>,
) -> bool {
    &&& results.len() == reqs.len()
    &&& exists|planes: Vec<F32>, out: (Vec<F32>, Vec<F32>)|
        {
            &&& planes@ == boards_planes(shown(reqs))
            &&& #[trigger] call_ensures(forward, (&planes, reqs.len() as usize), out)
            &&& forall|i: int|
                0 <= i < reqs.len() ==> tells(
                    reqs[i],
                    out.0@.subrange(121 * i, 121 * i + 121),
                    out.1@[i],
                    #[trigger] results[i],
                )
        }
}

/// Evaluate boards with a network that takes planes and gives policies and values, sente to move.
pub fn evaluate<F: Fn(&Vec<F32>, usize) -> (Vec<F32>, Vec<F32>)>(
    reqs: Vec<EvalRequest>,
    forward: &F,
) -> (results: Vec<EvalResult>)
    requires
        reqs@.len() * 242 <= usize::MAX,
        forall|planes: &Vec<F32>, n: usize|
            planes@.len() == 242 * n ==> call_requires(*forward, (planes, n)),
        forall|planes: &Vec<F32>, n: usize, out: (Vec<F32>, Vec<F32>)|
            call_ensures(*forward, (planes, n), out) ==> out.0@.len() >= 121 * n && out.1@.len()
                >= n,
    ensures
        results@.len() == reqs@.len(),
        evaluated(reqs@, *forward, results@),
{
    let ghost given = reqs@;
    let mut reqs = reqs;
    prepare(&mut reqs);
    let boards = seen_boards(&reqs);
    let planes = batch_planes(&boards);
    let out = forward(&planes, reqs.len());
    let results = finish(&reqs, &out.0, &out.1);
    proof {
        assert forall|i: int| 0 <= i < given.len() implies #[trigger] boards@[i] == shown(
            given,
        )[i] by {
            assert(reqs@[i].transform.stack@ == ready_stack(given[i]));
        }
        assert(boards@ =~= shown(given));
        assert(call_ensures(*forward, (&planes, given.len() as usize), out));
        assert forall|i: int| 0 <= i < given.len() implies tells(
            given[i],
            out.0@.subrange(121 * i, 121 * i + 121),
            out.1@[i],
            #[trigger] results@[i],
        ) by {
            assert(reqs@[i].transform.stack@ == ready_stack(given[i]));
        }
    }
    results
}

/// The size of a model.
#[derive(Copy, Clone, Debug, PartialEq, Eq, Structural)]
pub struct ModelConfig {
    pub conv_layers: usize,
    pub conv_channels: usize,
    pub value_hidden: usize,
}

/// The name of a model of the given size.
pub open spec fn config_id(config: ModelConfig) -> Seq<char> {
    "v0-"@ + decimal(config.conv_layers as nat) + "-"@ + decimal(config.conv_channels as nat)
        + "-"@ + decimal(config.value_hidden as nat)
}

impl ModelConfig {
    pub fn new(conv_layers: usize, conv_channels: usize, value_hidden: usize) -> (config: Self)
        ensures
            config == (ModelConfig { conv_layers, conv_channels, value_hidden }),
    {
        Self { conv_layers, conv_channels, value_hidden }
    }

    /// The name of the model.
    pub fn id(&self) -> (id: String)
        ensures
            id@ == config_id(*self),
    {
        let mut id = String::new();
        id.append("v0-");
        push_decimal(&mut id, self.conv_layers as u64);
        id.append("-");
        push_decimal(&mut id, self.conv_channels as u64);
        id.append("-");
        push_decimal(&mut id, self.value_hidden as u64);
        assert(id@ =~= config_id(*self));
        id
    }
}

/// Models of different sizes have different names.
pub proof fn ids_tell_models_apart(a: ModelConfig, b: ModelConfig)
    requires
        config_id(a) == config_id(b),
    ensures
        a == b,
{
    reveal_strlit("v0-");
    reveal_strlit("-");
    let (a0, a1, a2) = (
        decimal(a.conv_layers as nat),
        decimal(a.conv_channels as nat),
        decimal(a.value_hidden as nat),
    );
    let (b0, b1, b2) = (
        decimal(b.conv_layers as nat),
        decimal(b.conv_channels as nat),
        decimal(b.value_hidden as nat),
    );
    lemma_decimal_digits(a.conv_layers as nat);
    lemma_decimal_digits(a.conv_channels as nat);
    lemma_decimal_digits(b.conv_layers as nat);
    lemma_decimal_digits(b.conv_channels as nat);
    let ida = config_id(a);
    let idb = config_id(b);
    assert(ida.subrange(3, ida.len() as int) =~= a0.push('-') + (a1.push('-') + a2));
    assert(idb.subrange(3, idb.len() as int) =~= b0.push('-') + (b1.push('-') + b2));
    lemma_split_at_separator(a0, a1.push('-') + a2, b0, b1.push('-') + b2, '-');
    lemma_split_at_separator(a1, a2, b1, b2, '-');
    decimals_tell_numbers_apart(a.conv_layers as nat, b.conv_layers as nat);
    decimals_tell_numbers_apart(a.conv_channels as nat, b.conv_channels as nat);
    decimals_tell_numbers_apart(a.value_hidden as nat, b.value_hidden as nat);
}

/// Whoever is to move, the network sees a board with sente to move; what it says of a move is said
/// of the mirrored move where the board was transposed, and its value changes sign.
pub proof fn the_network_sees_sente_to_move(
    req: EvalRequest,
    policy: Seq<F32>,
    value: F32,
    n: int,
)
    requires
        req.board.wf(),
        req.transform.stack@.len() == 0,
        policy.len() == 121,
        0 <= n < 121,
    ensures
        ({
            let stack = ready_stack(req);
            let seen = boards_of(stack, stack.len(), req.board);
            let back = policies_from(stack, stack.len(), policy);
            &&& seen.wf()
            &&& seen.black_next()
            &&& seen.winner() == if req.board.black_next() {
                req.board.winner()
            } else {
                swapped(req.board.winner())
            }
            &&& back.len() == 121
            &&& back[n] == if req.board.black_next() {
                policy[n]
            } else {
                policy[flip(n)]
            }
            &&& values_from(stack, stack.len(), value) == if req.board.black_next() {
                value
            } else {
                value.negated()
            }
        }),
{
    reveal_with_fuel(boards_of, 2);
    reveal_with_fuel(policies_from, 2);
    reveal_with_fuel(values_from, 2);
    transpose_mirrors_and_swaps(req.board);
    transpose_swaps_the_winner(req.board);
}

/// Whether a network gives the same answer to the same planes.
pub open spec fn steady<F: Fn(&Vec<F32>, usize) -> (Vec<F32>, Vec<F32>)>(forward: F) -> bool {
    forall|a: &Vec<F32>, b: &Vec<F32>, n: usize, x: (Vec<F32>, Vec<F32>), y: (Vec<F32>, Vec<F32>)|
        a@ == b@ && #[trigger] call_ensures(forward, (a, n), x) && #[trigger] call_ensures(
            forward,
            (b, n),
            y,
        ) ==> x.0@ == y.0@ && x.1@ == y.1@
}

/// Whether a result says of the mirrored moves what another says of the moves, with the other sign.
pub open spec fn mirrors(mirrored: EvalResult, result: EvalResult) -> bool {
    &&& result.policy@.len() == 121
    &&& mirrored.policy@ == transposed_policy(result.policy@)
    &&& mirrored.value == result.value.negated()
}

/// Where all boards are transposed, the network says the same of the mirrored moves, and the values
/// change sign.
pub proof fn transposed_boards_get_mirrored_results<
    F: Fn(&Vec<F32>, usize) -> (Vec<F32>, Vec<F32>),
>(
    reqs: Seq<EvalRequest>,
    transposed: Seq<EvalRequest>,
    forward: F,
    results: Seq<EvalResult>,
    mirrored: Seq<EvalResult>,
)
    requires
        steady(forward),
        forall|planes: &Vec<F32>, n: usize, out: (Vec<F32>, Vec<F32>)|
            call_ensures(forward, (planes, n), out) ==> out.0@.len() >= 121 * n && out.1@.len()
                >= n,
        reqs.len() <= usize::MAX,
        transposed.len() == reqs.len(),
        forall|i: int|
            0 <= i < reqs.len() ==> {
                &&& (#[trigger] reqs[i]).board.wf()
                &&& reqs[i].transform.stack@.len() == 0
                &&& transposed[i].board == reqs[i].board.transposed()
                &&& transposed[i].transform.stack@.len() == 0
            },
        evaluated(reqs, forward, results),
        evaluated(transposed, forward, mirrored),
    ensures
        results.len() == reqs.len(),
        mirrored.len() == reqs.len(),
        forall|i: int|
            0 <= i < reqs.len() ==> mirrors(#[trigger] mirrored[i], results[i]),
{
    let n = reqs.len();
    assert forall|i: int| 0 <= i < n implies #[trigger] shown(reqs)[i] == shown(transposed)[i] by {
        reveal_with_fuel(boards_of, 2);
        assert(reqs[i].board.wf());
        transpose_mirrors_and_swaps(reqs[i].board);
        transpose_undoes_itself(reqs[i].board);
    }
    assert(shown(reqs) =~= shown(transposed));
    let (planes, out) = choose|planes: Vec<F32>, out: (Vec<F32>, Vec<F32>)|
        {
            &&& planes@ == boards_planes(shown(reqs))
            &&& #[trigger] call_ensures(forward, (&planes, n as usize), out)
            &&& forall|i: int|
                0 <= i < n ==> tells(
                    reqs[i],
                    out.0@.subrange(121 * i, 121 * i + 121),
                    out.1@[i],
                    #[trigger] results[i],
                )
        };
    let (planes2, out2) = choose|planes2: Vec<F32>, out2: (Vec<F32>, Vec<F32>)|
        {
            &&& planes2@ == boards_planes(shown(transposed))
            &&& #[trigger] call_ensures(forward, (&planes2, n as usize), out2)
            &&& forall|i: int|
                0 <= i < n ==> tells(
                    transposed[i],
                    out2.0@.subrange(121 * i, 121 * i + 121),
                    out2.1@[i],
                    #[trigger] mirrored[i],
                )
        };
    assert(call_ensures(forward, (&planes, n as usize), out));
    assert(call_ensures(forward, (&planes2, n as usize), out2));
    assert(out.0@ == out2.0@ && out.1@ == out2.1@);
    assert forall|i: int| 0 <= i < n implies mirrors(#[trigger] mirrored[i], results[i]) by {
        let said = out.0@.subrange(121 * i, 121 * i + 121);
        assert(reqs[i].board.wf());
        transpose_mirrors_and_swaps(reqs[i].board);
        assert(tells(reqs[i], said, out.1@[i], results[i]));
        assert(tells(transposed[i], said, out.1@[i], mirrored[i]));
        lemma_mirrored(reqs[i], transposed[i], said, out.1@[i], results[i], mirrored[i]);
    }
}

/// What is said of a board and of the transposed board, where the network says the same.
proof fn lemma_mirrored(
    req: EvalRequest,
    transposed: EvalRequest,
    policy: Seq<F32>,
    value: F32,
    result: EvalResult,
    mirrored: EvalResult,
)
    requires
        req.transform.stack@.len() == 0,
        transposed.transform.stack@.len() == 0,
        transposed.board.black_next() != req.board.black_next(),
        policy.len() == 121,
        tells(req, policy, value, result),
        tells(transposed, policy, value, mirrored),
    ensures
        mirrors(mirrored, result),
{
    reveal_with_fuel(policies_from, 2);
    reveal_with_fuel(values_from, 2);
    transpose_is_undoable(Transpose);
    assert(transposed_policy(transposed_policy(policy)) =~= policy);
}

} // verus!
