//! Trying again.

use std::ops::ControlFlow;

use vstd::prelude::*;

verus! {

/// When to try again: at once the first time, then after a second each.
#[derive(Copy, Clone)]
pub struct RetryStrategy {
    // no fields
}

impl RetryStrategy {
    /// The attempts that the strategy allows.
    pub fn attempts(&self) -> (retry: Retry)
        ensures
            retry.first,
    {
        Retry::new()
    }

    /// Try until it succeeds, or until it fails with an error that `inspect_error` will not go on
    /// from. `sleep` waits for so many milliseconds between attempts. Both an attempt and a wait
    /// take the state of the world and give it back as they leave it. There is no result where the
    /// attempts can no longer be counted.
    pub fn attempt<
        W,
        T,
        E,
        F: Fn(W) -> (W, Result<T, E>),
        G: Fn(E) -> ControlFlow<E, ()>,
        S: Fn(W, u64) -> W,
    >(&self, world: W, body: &F, inspect_error: &G, sleep: &S) -> (done: (W, Option<Result<T, E>>))
        requires
            forall|w: W| call_requires(*body, (w,)),
            forall|e: E| call_requires(*inspect_error, (e,)),
            forall|w: W, millis: u64| call_requires(*sleep, (w, millis)),
        ensures
            exists|worlds: Seq<W>|
                {
                    &&& #[trigger] went_on(worlds, *body, *inspect_error, *sleep)
                    &&& worlds.len() > 0
                    &&& worlds.first() == world
                    &&& came_to(worlds.last(), *body, *inspect_error, done.0, done.1)
                    &&& done.1 is None ==> worlds.len() > u64::MAX
                },
    {
        let mut retry = self.attempts();
        let mut current = world;
        if let Some(delay) = retry.next() {
            current = sleep(current, delay);
        }
        let ghost mut worlds: Seq<W> = seq![world];
        let mut attempts: u64 = 0;
        loop
            invariant
                !retry.first,
                forall|w: W| call_requires(*body, (w,)),
                forall|e: E| call_requires(*inspect_error, (e,)),
                forall|w: W, millis: u64| call_requires(*sleep, (w, millis)),
                went_on(worlds, *body, *inspect_error, *sleep),
                worlds.len() == attempts + 1,
                worlds.first() == world,
                worlds.last() == current,
            decreases u64::MAX - attempts,
        {
            let (left, outcome) = body(current);
            let ghost got = outcome;
            assert(call_ensures(*body, (worlds.last(),), (left, got)));
            match retry.after(outcome, inspect_error) {
                ControlFlow::Break(result) => {
                    assert(came_to(worlds.last(), *body, *inspect_error, left, Some(result)));
                    return (left, Some(result));
                },
                ControlFlow::Continue(delay) => {
                    if attempts == u64::MAX {
                        assert(came_to(
                            worlds.last(),
                            *body,
                            *inspect_error,
                            left,
                            None::<Result<T, E>>,
                        ));
                        return (left, None);
                    }
                    let ghost failed = left;
                    current = sleep(left, delay);
                    proof {
                        let before = worlds;
                        worlds = worlds.push(current);
                        assert(failed_and_waited(
                            before.last(),
                            failed,
                            got->Err_0,
                            current,
                            *body,
                            *inspect_error,
                            *sleep,
                        ));
                        assert forall|i: int| 0 <= i < worlds.len() - 1 implies #[trigger] led_on(
                            worlds,
                            i,
                            *body,
                            *inspect_error,
                            *sleep,
                        ) by {
                            if i < before.len() - 1 {
                                assert(led_on(before, i, *body, *inspect_error, *sleep));
                                assert(worlds[i] == before[i] && worlds[i + 1] == before[i + 1]);
                            } else {
                                assert(worlds[i] == before.last() && worlds[i + 1] == current);
                            }
                        }
                    }
                },
            }
            attempts = attempts + 1;
        }
    }
}

/// Whether `inspect_error` can answer that there is to be another attempt after this error.
pub open spec fn can_go_on<E, G: Fn(E) -> ControlFlow<E, ()>>(inspect_error: G, e: E) -> bool {
    exists|flow: ControlFlow<E, ()>|
        #[trigger] call_ensures(inspect_error, (e,), flow) && flow is Continue
}

/// Whether an attempt can fail with an error that there is to be another attempt after, and leave
/// the world as `failed`, and a second of waiting can lead from there to `next`.
pub open spec fn failed_and_waited<
    W,
    T,
    E,
    F: Fn(W) -> (W, Result<T, E>),
    G: Fn(E) -> ControlFlow<E, ()>,
    S: Fn(W, u64) -> W,
>(world: W, failed: W, e: E, next: W, body: F, inspect_error: G, sleep: S) -> bool {
    &&& call_ensures(body, (world,), (failed, Err(e)))
    &&& can_go_on(inspect_error, e)
    &&& call_ensures(sleep, (failed, 1000), next)
}

/// Whether the attempt after `i` others can fail and be followed by the next one.
pub open spec fn led_on<
    W,
    T,
    E,
    F: Fn(W) -> (W, Result<T, E>),
    G: Fn(E) -> ControlFlow<E, ()>,
    S: Fn(W, u64) -> W,
>(worlds: Seq<W>, i: int, body: F, inspect_error: G, sleep: S) -> bool {
    exists|failed: W, e: E|
        #[trigger] failed_and_waited(
            worlds[i],
            failed,
            e,
            worlds[i + 1],
            body,
            inspect_error,
            sleep,
        )
}

/// Whether these can be the states of the world before each attempt, all of which but the last
/// have failed.
pub open spec fn went_on<
    W,
    T,
    E,
    F: Fn(W) -> (W, Result<T, E>),
    G: Fn(E) -> ControlFlow<E, ()>,
    S: Fn(W, u64) -> W,
>(worlds: Seq<W>, body: F, inspect_error: G, sleep: S) -> bool {
    forall|i: int|
        0 <= i < worlds.len() - 1 ==> #[trigger] led_on(worlds, i, body, inspect_error, sleep)
}

/// Whether an attempt in `world` can leave `after` and be the last, with this result: what it came
/// to, or the error that `inspect_error` put in its place. There is none where there was to be
/// another attempt.
pub open spec fn came_to<W, T, E, F: Fn(W) -> (W, Result<T, E>), G: Fn(E) -> ControlFlow<E, ()>>(
    world: W,
    body: F,
    inspect_error: G,
    after: W,
    result: Option<Result<T, E>>,
) -> bool {
    exists|outcome: Result<T, E>| #[trigger]
        call_ensures(body, (world,), (after, outcome)) && match outcome {
            Ok(res) => result == Some(Ok::<T, E>(res)),
            Err(e) => match result {
                Some(Ok(_)) => false,
                Some(Err(given)) => call_ensures(
                    inspect_error,
                    (e,),
                    ControlFlow::<E, ()>::Break(given),
                ),
                None => can_go_on(inspect_error, e),
            },
        }
}

/// The attempts still to be made. There is always one more.
pub struct Retry {
    pub first: bool,
}

impl Retry {
    pub fn new() -> (retry: Retry)
        ensures
            retry.first,
    {
        Retry { first: true }
    }

    /// How many milliseconds to wait before the next attempt, if any.
    pub fn next(&mut self) -> (delay: Option<u64>)
        ensures
            delay == if old(self).first {
                None::<u64>
            } else {
                Some(1000u64)
            },
            !final(self).first,
    {
        if self.first {
            self.first = false;
            None
        } else {
            Some(1000)
        }
    }

    /// What to do once an attempt has ended: return its result, or the error that `inspect_error`
    /// will not go on from; else wait for so many milliseconds and try again.
    pub fn after<T, E, G: Fn(E) -> ControlFlow<E, ()>>(
        &mut self,
        outcome: Result<T, E>,
        inspect_error: &G,
    ) -> (step: ControlFlow<Result<T, E>, u64>)
        requires
            !old(self).first,
            forall|e: E| call_requires(*inspect_error, (e,)),
        ensures
            !final(self).first,
            match outcome {
                Ok(res) => step == ControlFlow::<Result<T, E>, u64>::Break(Ok(res)),
                Err(e) => exists|flow: ControlFlow<E, ()>|
                    #[trigger] call_ensures(*inspect_error, (e,), flow) && match flow {
                        ControlFlow::Break(given) => step == ControlFlow::<
                            Result<T, E>,
                            u64,
                        >::Break(Err(given)),
                        ControlFlow::Continue(_) => step == ControlFlow::<
                            Result<T, E>,
                            u64,
                        >::Continue(1000),
                    },
            },
    {
        match outcome {
            Ok(res) => ControlFlow::Break(Ok(res)),
            Err(e) => match inspect_error(e) {
                ControlFlow::Break(e) => ControlFlow::Break(Err(e)),
                ControlFlow::Continue(()) => match self.next() {
                    Some(delay) => ControlFlow::Continue(delay),
                    None => ControlFlow::Continue(0),
                },
            },
        }
    }
}

} // verus!
