//! Agents that think about a move while others wait.

use std::ops::ControlFlow;
use std::sync::Arc;
use std::time::Instant;

use vstd::prelude::*;
use vstd::rwlock::{ReadHandle, RwLock, RwLockPredicate, WriteHandle};
use crate::bb::Bitboard;
use crate::board_laws::{is_reply, moves_are_the_empty_cells};
use crate::clock::{nanos_since, now};
use crate::mcts2::{
    consulted, ended, grown_to, heard, scorable, search, searched, sente_at, MctsMonitor, MctsNode,
    MctsState, MctsStats,
};
use crate::util::Finite;

verus! {

/// What an agent is doing, and the board it would play.
#[derive(Debug)]
pub struct AgentState {
    pub status: AgentStatus,
    pub best_state: Option<Bitboard>,
}

#[derive(Copy, Clone, Debug, PartialEq, Eq, Structural)]
pub enum AgentStatus {
    Idle,
    Thinking,
}

/// What an agent is told.
#[derive(Copy, Clone, Debug)]
pub enum AgentMessage {
    BoardChanged(Bitboard, usize),
}

/// Thinks about the task that a handle holds, and puts its result there.
pub trait AgentThinker: Clone + Send + 'static {
    fn think(self, handle: ThinkHandle);
}

/// Hands out tasks to a thinker.
pub struct Agent<T> {
    pub thinker: T,
}

impl<T: AgentThinker> Agent<T> {
    pub fn new(thinker: T) -> (agent: Self)
        ensures
            agent.thinker == thinker,
    {
        Self { thinker }
    }

    /// A task for the thinker, who is to be let loose on it.
    pub fn task(&self, board: Bitboard, turn: usize) -> (task: (T, ThinkHandle))
        ensures
            call_ensures(T::clone, (&self.thinker,), task.0),
            task.1.board() == board,
            task.1.turn() == turn,
    {
        (self.thinker.clone(), ThinkHandle::new(board, turn))
    }
}

/// What is known of a task.
#[derive(Debug)]
pub struct ThinkData {
    pub board: Bitboard,
    pub turn: usize,
    pub message: Option<String>,
    pub result: Option<Bitboard>,
    pub aborted: bool,
}

impl ThinkData {
    /// Whether the data say the same.
    pub open spec fn says_as(self, other: ThinkData) -> bool {
        &&& self.board == other.board
        &&& self.turn == other.turn
        &&& self.message is Some <==> other.message is Some
        &&& self.message matches Some(text) ==> text@ == other.message->Some_0@
        &&& self.result == other.result
        &&& self.aborted == other.aborted
    }

    /// What is known of a task that nobody has thought about.
    pub fn new(board: Bitboard, turn: usize) -> (data: ThinkData)
        ensures
            data == (ThinkData { board, turn, message: None, result: None, aborted: false }),
    {
        ThinkData { board, turn, message: None, result: None, aborted: false }
    }

    /// The thinker is to stop.
    pub fn abort(&mut self)
        ensures
            *final(self) == (ThinkData { aborted: true, ..*old(self) }),
    {
        self.aborted = true;
    }

    /// The thinker has something to say.
    pub fn report(&mut self, message: String)
        ensures
            *final(self) == (ThinkData { message: Some(message), ..*old(self) }),
    {
        self.message = Some(message);
    }

    /// The thinker has made a move.
    pub fn finish(&mut self, next: Bitboard)
        ensures
            *final(self) == (ThinkData { result: Some(next), ..*old(self) }),
    {
        self.result = Some(next);
    }

    /// The same data again.
    fn duplicate(&self) -> (data: ThinkData)
        ensures
            data.says_as(*self),
    {
        let message = match &self.message {
            Some(text) => Some(text.clone()),
            None => None,
        };
        ThinkData {
            board: self.board,
            turn: self.turn,
            message,
            result: self.result,
            aborted: self.aborted,
        }
    }
}

/// The task itself, which does not change.
pub struct ThinkTask {
    pub board: Bitboard,
    pub turn: usize,
}

impl RwLockPredicate<ThinkData> for ThinkTask {
    open spec fn inv(self, data: ThinkData) -> bool {
        &&& data.board == self.board
        &&& data.turn == self.turn
        &&& data.result matches Some(next) ==> is_reply(self.board, next)
    }
}

/// A task that is shared by those who wait for it and those who think about it.
pub struct ThinkHandle {
    data: Arc<RwLock<ThinkData, ThinkTask>>,
}

impl Clone for ThinkHandle {
    fn clone(&self) -> (handle: Self)
        ensures
            handle == *self,
    {
        ThinkHandle { data: self.data.clone() }
    }
}

impl ThinkHandle {
    /// The board to think about.
    pub closed spec fn board(self) -> Bitboard {
        self.data.pred().board
    }

    /// How many moves have been made.
    pub closed spec fn turn(self) -> usize {
        self.data.pred().turn
    }

    /// Whether a reader who holds the lock can see these data.
    pub closed spec fn can_hold(self, data: ThinkData) -> bool {
        exists|reader: ReadHandle<'_, ThinkData, ThinkTask>|
            #[trigger] reader.rwlock() == *self.data && reader.view() == data
    }

    /// Whether these data were put behind the lock when it was made.
    pub closed spec fn began_with(self, data: ThinkData) -> bool {
        exists|task: Ghost<ThinkTask>| #[trigger]
            call_ensures(RwLock::<ThinkData, ThinkTask>::new, (data, task), *self.data)
    }

    /// Whether a writer has taken the data `before` from behind the lock and put `after` back.
    pub closed spec fn wrote(self, before: ThinkData, after: ThinkData) -> bool {
        exists|writer: WriteHandle<'_, ThinkData, ThinkTask>|
            {
                &&& #[trigger] call_ensures(
                    RwLock::<ThinkData, ThinkTask>::acquire_write,
                    (&*self.data,),
                    (before, writer),
                )
                &&& call_ensures(
                    WriteHandle::<ThinkData, ThinkTask>::release_write,
                    (writer, after),
                    (),
                )
            }
    }

    /// A task that nobody has thought about.
    pub fn new(board: Bitboard, turn: usize) -> (handle: ThinkHandle)
        ensures
            handle.board() == board,
            handle.turn() == turn,
            handle.began_with(
                ThinkData { board, turn, message: None, result: None, aborted: false },
            ),
    {
        let data = ThinkData::new(board, turn);
        ThinkHandle { data: Arc::new(RwLock::new(data, Ghost(ThinkTask { board, turn }))) }
    }

    /// What is known of the task now.
    pub fn data(&self) -> (data: ThinkData)
        ensures
            data.board == self.board(),
            data.turn == self.turn(),
            data.result matches Some(next) ==> is_reply(self.board(), next),
            exists|held: ThinkData| #[trigger] self.can_hold(held) && data.says_as(held),
    {
        let handle = self.data.acquire_read();
        let data = handle.borrow().duplicate();
        assert(handle.rwlock() == *self.data);
        assert(self.can_hold(handle.view()));
        handle.release_read();
        data
    }

    /// What the thinker has to say: the message of what is known of the task now.
    pub fn message(&self) -> (message: Option<String>)
        ensures
            exists|data: ThinkData| #[trigger]
                call_ensures(ThinkHandle::data, (self,), data) && message == data.message,
    {
        self.data().message
    }

    /// The board after the thinker's move, once there is one: a legal move on the task's board.
    pub fn result(&self) -> (result: Option<Bitboard>)
        ensures
            result matches Some(next) ==> is_reply(self.board(), next),
            exists|data: ThinkData| #[trigger]
                call_ensures(ThinkHandle::data, (self,), data) && result == data.result,
    {
        self.data().result
    }

    /// Ask the thinker to stop.
    pub fn abort(&self)
        ensures
            exists|before: ThinkData| #[trigger]
                self.wrote(before, ThinkData { aborted: true, ..before }),
    {
        let (mut data, handle) = self.data.acquire_write();
        let ghost before = data;
        data.abort();
        handle.release_write(data);
        assert(self.wrote(before, data));
    }

    /// Say something.
    pub fn report(&self, message: String)
        ensures
            exists|before: ThinkData| #[trigger]
                self.wrote(before, ThinkData { message: Some(message), ..before }),
    {
        let (mut data, handle) = self.data.acquire_write();
        let ghost before = data;
        data.report(message);
        handle.release_write(data);
        assert(self.wrote(before, data));
    }

    /// Make a move.
    pub fn finish(&self, next: Bitboard)
        requires
            is_reply(self.board(), next),
        ensures
            exists|before: ThinkData| #[trigger]
                self.wrote(before, ThinkData { result: Some(next), ..before }),
    {
        let (mut data, handle) = self.data.acquire_write();
        let ghost before = data;
        data.finish(next);
        handle.release_write(data);
        assert(self.wrote(before, data));
    }
}

/// Whether thinking ends: after half a billion games, after two seconds, or when it was aborted.
pub fn should_stop(num_sims: u32, elapsed_nanos: u128, aborted: bool) -> (stop: bool)
    ensures
        stop == (num_sims >= 500_000_000 || elapsed_nanos >= 2_000_000_000 || aborted),
{
    let stop_on_iters = num_sims >= 500_000_000;
    let stop_on_time = elapsed_nanos / 1_000_000_000 >= 2;
    let stop_on_aborted = aborted;
    stop_on_iters || stop_on_time || stop_on_aborted
}

/// Reports on a search and stops it in time.
struct ThinkMonitor<'a, D> {
    start: Instant,
    task: &'a ThinkHandle,
    describe: &'a D,
}

impl<'a, D: Fn(&MctsStats<Bitboard>, u128) -> String> ThinkMonitor<'a, D> {
    /// Whether the clock can say, when it is read, that so many nanoseconds have passed.
    pub closed spec fn elapsed(self, nanos: u128) -> bool {
        call_ensures(nanos_since, (&self.start,), nanos)
    }
}

impl<'a, D: Fn(&MctsStats<Bitboard>, u128) -> String> MctsMonitor<Bitboard> for ThinkMonitor<
    'a,
    D,
> {
    closed spec fn listens(&self) -> bool {
        forall|stats: &MctsStats<Bitboard>, nanos: u128|
            call_requires(*self.describe, (stats, nanos))
    }

    /// So many nanoseconds have passed, `describe` was asked how the search stands by then, what it
    /// said was reported, and the task's data were read.
    closed spec fn answers(&self, stats: &MctsStats<Bitboard>, stop: bool, after: Self) -> bool {
        &&& after == *self
        &&& exists|nanos: u128, message: String, data: ThinkData|
            {
                &&& self.elapsed(nanos)
                &&& #[trigger] call_ensures(*self.describe, (stats, nanos), message)
                &&& call_ensures(ThinkHandle::report, (self.task, message), ())
                &&& #[trigger] call_ensures(ThinkHandle::data, (self.task,), data)
                &&& stop == (stats.num_sims >= 500_000_000 || nanos >= 2_000_000_000
                    || data.aborted)
            }
    }

    fn defer(&mut self, stats: &MctsStats<Bitboard>) -> (flow: ControlFlow<()>)
        ensures
            *final(self) == *old(self),
            old(self).answers(stats, flow is Break, *old(self)),
    {
        let elapsed: u128 = nanos_since(&self.start);
        let describe = self.describe;
        self.task.report(describe(stats, elapsed));
        let aborted = self.task.data().aborted;
        match should_stop(stats.num_sims, elapsed, aborted) {
            true => ControlFlow::Break(()),
            false => ControlFlow::Continue(()),
        }
    }
}

/// Whether thinking about a task can end with the board `next`: a monitor that looks at the clock,
/// reports to the task and is told by it to stop has watched a search that ended there.
pub closed spec fn thought_about<
    F: Fn(u32, u32, u32) -> Finite,
    D: Fn(&MctsStats<Bitboard>, u128) -> String,
>(task: &ThinkHandle, score: F, describe: &D, next: Bitboard) -> bool {
    exists|before: ThinkMonitor<'_, D>, after: ThinkMonitor<'_, D>|
        {
            &&& #[trigger] searched(task.board(), task.turn(), score, before, after, next)
            &&& before.task == task
            &&& before.describe == describe
        }
}

/// Whether something was reported to the task.
pub open spec fn was_told(task: &ThinkHandle) -> bool {
    exists|message: String| #[trigger] call_ensures(ThinkHandle::report, (task, message), ())
}

/// A monitor stays at its task.
proof fn lemma_task_stays<'a, D: Fn(&MctsStats<Bitboard>, u128) -> String>(
    monitors: Seq<ThinkMonitor<'a, D>>,
    shown: Seq<MctsStats<Bitboard>>,
    stopped: bool,
    i: int,
)
    requires
        consulted(monitors, shown, stopped),
        0 <= i < monitors.len(),
    ensures
        monitors[i] == monitors[0],
    decreases i,
{
    if i > 0 {
        lemma_task_stays(monitors, shown, stopped, i - 1);
        assert(heard(monitors, shown, stopped, i - 1));
    }
}

/// A search that its monitor has stopped was reported on.
proof fn lemma_reported<'a, D: Fn(&MctsStats<Bitboard>, u128) -> String>(
    monitors: Seq<ThinkMonitor<'a, D>>,
    shown: Seq<MctsStats<Bitboard>>,
)
    requires
        consulted(monitors, shown, true),
    ensures
        was_told(monitors[0].task),
{
    let last = shown.len() - 1;
    lemma_task_stays(monitors, shown, true, last);
    assert(heard(monitors, shown, true, last));
}

/// Think about a task by tree search, and put the move found there. `describe` says how the search
/// stands after so many nanoseconds.
pub fn mcts_thinking_task<
    F: Fn(u32, u32, u32) -> Finite,
    D: Fn(&MctsStats<Bitboard>, u128) -> String,
>(task: &ThinkHandle, score: &F, describe: &D) -> (next: Bitboard)
    requires
        task.board().winner() is None,
        scorable(*score),
        forall|stats: &MctsStats<Bitboard>, nanos: u128|
            call_requires(*describe, (stats, nanos)),
    ensures
        is_reply(task.board(), next),
        exists|rounds: nat, root: MctsNode<'_, Bitboard>|
            {
                &&& #[trigger] grown_to(task.board(), rounds, root, sente_at(task.turn()), *score)
                &&& root.picks(next)
                &&& root.full() || was_told(task)
            },
        thought_about(task, *score, describe, next),
        call_ensures(ThinkHandle::finish, (task, next), ()),
{
    let data = task.data();
    let mut monitor = ThinkMonitor { start: now(), task, describe };
    let ghost before = monitor;
    let next = search(data.board, data.turn, score, &mut monitor);
    proof {
        assert(searched(task.board(), task.turn(), *score, before, monitor, next));
        let (rounds, root, monitors, shown) = choose|
            rounds: nat,
            root: MctsNode<'_, Bitboard>,
            monitors: Seq<ThinkMonitor<'_, D>>,
            shown: Seq<MctsStats<Bitboard>>,
        |
            {
                &&& #[trigger] grown_to(
                    task.board(),
                    rounds,
                    root,
                    sente_at(task.turn()),
                    *score,
                )
                &&& #[trigger] ended(
                    task.board(),
                    root,
                    sente_at(task.turn()),
                    *score,
                    monitors,
                    shown,
                    next,
                )
                &&& monitors.first() == before
                &&& monitors.last() == monitor
            };
        if !root.full() {
            lemma_reported(monitors, shown);
        }
        let moves = data.board.moves_below(121);
        let states = MctsState::successors(&data.board);
        moves_are_the_empty_cells(data.board, 121);
        let i = choose|i: int| 0 <= i < states.len() && states[i] == next;
        let (m, child) = moves[i];
        assert(next == data.board.played(m as int));
    }
    task.finish(next);
    next
}

} // verus!
