//! Symmetries of the game, applied to boards, policies and values.

use vstd::prelude::*;
use crate::bb::{flip, lemma_flip, Bitboard};
use crate::board_laws::{
    transpose_commutes_with_moves, transpose_mirrors_and_swaps, transpose_undoes_itself,
};
use crate::nn::constants::BOARD_SIZE;
use crate::util::{negation_reverses_the_order, F32};

verus! {

/// A way to look at a game: what it makes of a board, of a policy (one number for each cell) and of
/// a value, and how to get back. One that says nothing of these changes nothing.
pub trait Transform {
    open spec fn board_of(&self, board: Bitboard) -> Bitboard {
        board
    }

    open spec fn policy_of(&self, policy: Seq<F32>) -> Seq<F32> {
        policy
    }

    open spec fn value_of(&self, value: F32) -> F32 {
        value
    }

    open spec fn board_from(&self, board: Bitboard) -> Bitboard {
        board
    }

    open spec fn policy_from(&self, policy: Seq<F32>) -> Seq<F32> {
        policy
    }

    open spec fn value_from(&self, value: F32) -> F32 {
        value
    }

    fn apply_board(&self, board: Bitboard) -> (transformed: Bitboard)
        ensures
            transformed == self.board_of(board),
    ;

    fn apply_policy(&self, policy: Vec<F32>) -> (transformed: Vec<F32>)
        requires
            policy@.len() >= 121,
        ensures
            transformed@ == self.policy_of(policy@),
            transformed@.len() >= 121,
    ;

    fn apply_value(&self, value: F32) -> (transformed: F32)
        ensures
            transformed == self.value_of(value),
    ;

    fn unapply_board(&self, board: Bitboard) -> (restored: Bitboard)
        ensures
            restored == self.board_from(board),
    ;

    fn unapply_policy(&self, policy: Vec<F32>) -> (restored: Vec<F32>)
        requires
            policy@.len() >= 121,
        ensures
            restored@ == self.policy_from(policy@),
            restored@.len() >= 121,
    ;

    fn unapply_value(&self, value: F32) -> (restored: F32)
        ensures
            restored == self.value_from(value),
    ;
}

/// Transforms that are applied one after the other.
pub struct Transforms<T> {
    pub stack: Vec<T>,
}

/// What the first `n` transforms make of a board.
pub open spec fn boards_of<T: Transform>(stack: Seq<T>, n: nat, board: Bitboard) -> Bitboard
    decreases n,
{
    if n == 0 {
        board
    } else {
        stack[n - 1].board_of(boards_of(stack, (n - 1) as nat, board))
    }
}

/// What undoing the first `n` transforms, the last one first, makes of a board.
pub open spec fn boards_from<T: Transform>(stack: Seq<T>, n: nat, board: Bitboard) -> Bitboard
    decreases n,
{
    if n == 0 {
        board
    } else {
        boards_from(stack, (n - 1) as nat, stack[n - 1].board_from(board))
    }
}

/// What the first `n` transforms make of a policy.
pub open spec fn policies_of<T: Transform>(stack: Seq<T>, n: nat, policy: Seq<F32>) -> Seq<F32>
    decreases n,
{
    if n == 0 {
        policy
    } else {
        stack[n - 1].policy_of(policies_of(stack, (n - 1) as nat, policy))
    }
}

/// What undoing the first `n` transforms, the last one first, makes of a policy.
pub open spec fn policies_from<T: Transform>(stack: Seq<T>, n: nat, policy: Seq<F32>) -> Seq<F32>
    decreases n,
{
    if n == 0 {
        policy
    } else {
        policies_from(stack, (n - 1) as nat, stack[n - 1].policy_from(policy))
    }
}

/// What the first `n` transforms make of a value.
pub open spec fn values_of<T: Transform>(stack: Seq<T>, n: nat, value: F32) -> F32
    decreases n,
{
    if n == 0 {
        value
    } else {
        stack[n - 1].value_of(values_of(stack, (n - 1) as nat, value))
    }
}

/// What undoing the first `n` transforms, the last one first, makes of a value.
pub open spec fn values_from<T: Transform>(stack: Seq<T>, n: nat, value: F32) -> F32
    decreases n,
{
    if n == 0 {
        value
    } else {
        values_from(stack, (n - 1) as nat, stack[n - 1].value_from(value))
    }
}

impl<T: Transform> Transforms<T> {
    /// No transform at all.
    pub fn new() -> (tfs: Self)
        ensures
            tfs.stack@.len() == 0,
    {
        Self { stack: Vec::new() }
    }

    /// One more transform, applied after those before it.
    pub fn push(&mut self, tf: T)
        ensures
            final(self).stack@ == old(self).stack@.push(tf),
    {
        self.stack.push(tf);
    }
}

impl<T: Transform> Transform for Transforms<T> {
    open spec fn board_of(&self, board: Bitboard) -> Bitboard {
        boards_of(self.stack@, self.stack@.len(), board)
    }

    open spec fn policy_of(&self, policy: Seq<F32>) -> Seq<F32> {
        policies_of(self.stack@, self.stack@.len(), policy)
    }

    open spec fn value_of(&self, value: F32) -> F32 {
        values_of(self.stack@, self.stack@.len(), value)
    }

    open spec fn board_from(&self, board: Bitboard) -> Bitboard {
        boards_from(self.stack@, self.stack@.len(), board)
    }

    open spec fn policy_from(&self, policy: Seq<F32>) -> Seq<F32> {
        policies_from(self.stack@, self.stack@.len(), policy)
    }

    open spec fn value_from(&self, value: F32) -> F32 {
        values_from(self.stack@, self.stack@.len(), value)
    }

    fn apply_board(&self, board: Bitboard) -> (transformed: Bitboard) {
        let mut board_now = board;
        let mut i: usize = 0;
        while i < self.stack.len()
            invariant
                i <= self.stack@.len(),
                board_now == boards_of(self.stack@, i as nat, board),
            decreases self.stack@.len() - i,
        {
            board_now = self.stack[i].apply_board(board_now);
            i = i + 1;
        }
        board_now
    }

    fn apply_policy(&self, policy: Vec<F32>) -> (transformed: Vec<F32>) {
        let ghost given = policy@;
        let mut policy_now = policy;
        let mut i: usize = 0;
        while i < self.stack.len()
            invariant
                i <= self.stack@.len(),
                policy_now@ == policies_of(self.stack@, i as nat, given),
                policy_now@.len() >= 121,
            decreases self.stack@.len() - i,
        {
            policy_now = self.stack[i].apply_policy(policy_now);
            i = i + 1;
        }
        policy_now
    }

    fn apply_value(&self, value: F32) -> (transformed: F32) {
        let mut value_now = value;
        let mut i: usize = 0;
        while i < self.stack.len()
            invariant
                i <= self.stack@.len(),
                value_now == values_of(self.stack@, i as nat, value),
            decreases self.stack@.len() - i,
        {
            value_now = self.stack[i].apply_value(value_now);
            i = i + 1;
        }
        value_now
    }

    fn unapply_board(&self, board: Bitboard) -> (restored: Bitboard) {
        let mut board_now = board;
        let mut i: usize = self.stack.len();
        while i > 0
            invariant
                i <= self.stack@.len(),
                boards_from(self.stack@, i as nat, board_now) == boards_from(
                    self.stack@,
                    self.stack@.len(),
                    board,
                ),
            decreases i,
        {
            i = i - 1;
            board_now = self.stack[i].unapply_board(board_now);
        }
        board_now
    }

    fn unapply_policy(&self, policy: Vec<F32>) -> (restored: Vec<F32>) {
        let ghost given = policy@;
        let mut policy_now = policy;
        let mut i: usize = self.stack.len();
        while i > 0
            invariant
                i <= self.stack@.len(),
                policies_from(self.stack@, i as nat, policy_now@) == policies_from(
                    self.stack@,
                    self.stack@.len(),
                    given,
                ),
                policy_now@.len() >= 121,
            decreases i,
        {
            i = i - 1;
            policy_now = self.stack[i].unapply_policy(policy_now);
        }
        policy_now
    }

    fn unapply_value(&self, value: F32) -> (restored: F32) {
        let mut value_now = value;
        let mut i: usize = self.stack.len();
        while i > 0
            invariant
                i <= self.stack@.len(),
                values_from(self.stack@, i as nat, value_now) == values_from(
                    self.stack@,
                    self.stack@.len(),
                    value,
                ),
            decreases i,
        {
            i = i - 1;
            value_now = self.stack[i].unapply_value(value_now);
        }
        value_now
    }
}

/// One of two kinds of transform, so that different ones can be applied one after the other.
pub enum Either<A, B> {
    First(A),
    Second(B),
}

impl<A: Transform, B: Transform> Transform for Either<A, B> {
    open spec fn board_of(&self, board: Bitboard) -> Bitboard {
        match self {
            Either::First(tf) => tf.board_of(board),
            Either::Second(tf) => tf.board_of(board),
        }
    }

    open spec fn policy_of(&self, policy: Seq<F32>) -> Seq<F32> {
        match self {
            Either::First(tf) => tf.policy_of(policy),
            Either::Second(tf) => tf.policy_of(policy),
        }
    }

    open spec fn value_of(&self, value: F32) -> F32 {
        match self {
            Either::First(tf) => tf.value_of(value),
            Either::Second(tf) => tf.value_of(value),
        }
    }

    open spec fn board_from(&self, board: Bitboard) -> Bitboard {
        match self {
            Either::First(tf) => tf.board_from(board),
            Either::Second(tf) => tf.board_from(board),
        }
    }

    open spec fn policy_from(&self, policy: Seq<F32>) -> Seq<F32> {
        match self {
            Either::First(tf) => tf.policy_from(policy),
            Either::Second(tf) => tf.policy_from(policy),
        }
    }

    open spec fn value_from(&self, value: F32) -> F32 {
        match self {
            Either::First(tf) => tf.value_from(value),
            Either::Second(tf) => tf.value_from(value),
        }
    }

    fn apply_board(&self, board: Bitboard) -> (transformed: Bitboard) {
        match self {
            Either::First(tf) => tf.apply_board(board),
            Either::Second(tf) => tf.apply_board(board),
        }
    }

    fn apply_policy(&self, policy: Vec<F32>) -> (transformed: Vec<F32>) {
        match self {
            Either::First(tf) => tf.apply_policy(policy),
            Either::Second(tf) => tf.apply_policy(policy),
        }
    }

    fn apply_value(&self, value: F32) -> (transformed: F32) {
        match self {
            Either::First(tf) => tf.apply_value(value),
            Either::Second(tf) => tf.apply_value(value),
        }
    }

    fn unapply_board(&self, board: Bitboard) -> (restored: Bitboard) {
        match self {
            Either::First(tf) => tf.unapply_board(board),
            Either::Second(tf) => tf.unapply_board(board),
        }
    }

    fn unapply_policy(&self, policy: Vec<F32>) -> (restored: Vec<F32>) {
        match self {
            Either::First(tf) => tf.unapply_policy(policy),
            Either::Second(tf) => tf.unapply_policy(policy),
        }
    }

    fn unapply_value(&self, value: F32) -> (restored: F32) {
        match self {
            Either::First(tf) => tf.unapply_value(value),
            Either::Second(tf) => tf.unapply_value(value),
        }
    }
}

/// Swaps sente and gote
pub struct Transpose;

/// A policy with rows and columns exchanged.
pub open spec fn transposed_policy(policy: Seq<F32>) -> Seq<F32> {
    Seq::new(121, |n: int| policy[flip(n)])
}

/// The policy with rows and columns exchanged.
fn transpose_policy(policy: &Vec<F32>) -> (transposed: Vec<F32>)
    requires
        policy@.len() >= 121,
    ensures
        transposed@ == transposed_policy(policy@),
{
    let mut out: Vec<F32> = Vec::new();
    let mut n: usize = 0;
    while n < BOARD_SIZE
        invariant
            n <= 121,
            policy@.len() >= 121,
            out@.len() == n,
            forall|i: int| 0 <= i < n ==> #[trigger] out@[i] == policy@[flip(i)],
        decreases 121 - n,
    {
        proof {
            lemma_flip(n as int);
        }
        out.push(policy[(n % 11) * 11 + n / 11]);
        n = n + 1;
    }
    out
}

impl Transpose {
    pub fn new() -> (tf: Self)
        ensures
            tf == Transpose,
    {
        Self
    }
}

impl Transform for Transpose {
    open spec fn board_of(&self, board: Bitboard) -> Bitboard {
        board.transposed()
    }

    open spec fn policy_of(&self, policy: Seq<F32>) -> Seq<F32> {
        transposed_policy(policy)
    }

    open spec fn value_of(&self, value: F32) -> F32 {
        value.negated()
    }

    open spec fn board_from(&self, board: Bitboard) -> Bitboard {
        board.transposed()
    }

    open spec fn policy_from(&self, policy: Seq<F32>) -> Seq<F32> {
        transposed_policy(policy)
    }

    open spec fn value_from(&self, value: F32) -> F32 {
        value.negated()
    }

    fn apply_board(&self, board: Bitboard) -> (transformed: Bitboard) {
        board.transpose()
    }

    fn apply_policy(&self, policy: Vec<F32>) -> (transformed: Vec<F32>) {
        transpose_policy(&policy)
    }

    fn apply_value(&self, value: F32) -> (transformed: F32) {
        value.neg()
    }

    fn unapply_board(&self, board: Bitboard) -> (restored: Bitboard) {
        self.apply_board(board)
    }

    fn unapply_policy(&self, policy: Vec<F32>) -> (restored: Vec<F32>) {
        self.apply_policy(policy)
    }

    fn unapply_value(&self, value: F32) -> (restored: F32) {
        self.apply_value(value)
    }
}

/// Whether a transform keeps boards well formed and policies complete, and can be undone.
pub open spec fn undoable<T: Transform>(tf: T) -> bool {
    &&& forall|board: Bitboard|
        board.wf() ==> (#[trigger] tf.board_of(board)).wf() && tf.board_from(tf.board_of(board))
            == board
    &&& forall|policy: Seq<F32>|
        policy.len() == 121 ==> (#[trigger] tf.policy_of(policy)).len() == 121 && tf.policy_from(
            tf.policy_of(policy),
        ) == policy
    &&& forall|value: F32| tf.value_from(#[trigger] tf.value_of(value)) == value
}

/// Transposing can be undone.
pub proof fn transpose_is_undoable(tf: Transpose)
    ensures
        undoable(tf),
{
    assert forall|board: Bitboard| board.wf() implies (#[trigger] tf.board_of(board)).wf()
        && tf.board_from(tf.board_of(board)) == board by {
        transpose_mirrors_and_swaps(board);
        transpose_undoes_itself(board);
    }
    assert forall|policy: Seq<F32>| policy.len() == 121 implies (#[trigger] tf.policy_of(
        policy,
    )).len() == 121 && tf.policy_from(tf.policy_of(policy)) == policy by {
        let twice = tf.policy_from(tf.policy_of(policy));
        assert forall|n: int| 0 <= n < 121 implies twice[n] == #[trigger] policy[n] by {
            lemma_flip(n);
        }
        assert(twice =~= policy);
    }
    assert forall|value: F32| tf.value_from(#[trigger] tf.value_of(value)) == value by {
        negation_reverses_the_order(value, value);
    }
}

/// A policy and its board are transposed alike: what a policy says of a move, the transposed policy
/// says of the mirrored move.
pub proof fn transposed_policy_follows_the_board(board: Bitboard, policy: Seq<F32>, n: int)
    requires
        board.wf(),
        policy.len() == 121,
        0 <= n < 121,
        board.stone(n) is None,
    ensures
        transposed_policy(policy)[flip(n)] == policy[n],
        board.transposed().stone(flip(n)) is None,
        board.transposed().played(flip(n)) == board.played(n).transposed(),
{
    lemma_flip(n);
    transpose_commutes_with_moves(board, n);
}

/// Transforms that can each be undone can be undone together.
pub proof fn undoable_together<T: Transform>(tfs: Transforms<T>)
    requires
        forall|i: int| 0 <= i < tfs.stack@.len() ==> undoable(#[trigger] tfs.stack@[i]),
    ensures
        undoable(tfs),
{
    let stack = tfs.stack@;
    let n = stack.len();
    assert forall|board: Bitboard| board.wf() implies (#[trigger] tfs.board_of(board)).wf()
        && tfs.board_from(tfs.board_of(board)) == board by {
        lemma_undo_boards(stack, n, board);
    }
    assert forall|policy: Seq<F32>| policy.len() == 121 implies (#[trigger] tfs.policy_of(
        policy,
    )).len() == 121 && tfs.policy_from(tfs.policy_of(policy)) == policy by {
        lemma_undo_policies(stack, n, policy);
    }
    assert forall|value: F32| tfs.value_from(#[trigger] tfs.value_of(value)) == value by {
        lemma_undo_values(stack, n, value);
    }
}

proof fn lemma_undo_boards<T: Transform>(stack: Seq<T>, n: nat, board: Bitboard)
    requires
        n <= stack.len(),
        board.wf(),
        forall|i: int| 0 <= i < stack.len() ==> undoable(#[trigger] stack[i]),
    ensures
        boards_of(stack, n, board).wf(),
        boards_from(stack, n, boards_of(stack, n, board)) == board,
    decreases n,
{
    if n > 0 {
        lemma_undo_boards(stack, (n - 1) as nat, board);
        assert(undoable(stack[n - 1]));
    }
}

proof fn lemma_undo_policies<T: Transform>(stack: Seq<T>, n: nat, policy: Seq<F32>)
    requires
        n <= stack.len(),
        policy.len() == 121,
        forall|i: int| 0 <= i < stack.len() ==> undoable(#[trigger] stack[i]),
    ensures
        policies_of(stack, n, policy).len() == 121,
        policies_from(stack, n, policies_of(stack, n, policy)) == policy,
    decreases n,
{
    if n > 0 {
        lemma_undo_policies(stack, (n - 1) as nat, policy);
        assert(undoable(stack[n - 1]));
    }
}

proof fn lemma_undo_values<T: Transform>(stack: Seq<T>, n: nat, value: F32)
    requires
        n <= stack.len(),
        forall|i: int| 0 <= i < stack.len() ==> undoable(#[trigger] stack[i]),
    ensures
        values_from(stack, n, values_of(stack, n, value)) == value,
    decreases n,
{
    if n > 0 {
        lemma_undo_values(stack, (n - 1) as nat, value);
        assert(undoable(stack[n - 1]));
    }
}

} // verus!
