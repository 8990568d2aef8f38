//! A pushdown state machine for an application's screens or modes.
//!
//! The machine owns a stack of states of a caller-supplied type `S` and a
//! running flag, and decides how each [`Transition`] reshapes the stack.
//! It performs no lifecycle callbacks itself: every operation returns the
//! sequence of [`StateOp`] callbacks the embedding should perform — in
//! order — against the states it names (popped states are handed back by
//! value, surviving states are addressed by stack position). This keeps
//! the stack discipline here while an embedding is free to run the
//! callbacks asynchronously.

use vstd::prelude::*;

verus! {

#[derive(Clone, Copy, Debug, PartialEq, Eq, Structural)]
pub enum StateMachineError {
    NoStatesPresent,
}

/// What a state's callback asks the machine to do next.
pub enum Transition<S> {
    /// Keep the current stack.
    Stay,
    /// Pop the active state, resuming the one below it.
    Pop,
    /// Push a new state on top, suspending the current one.
    Push(S),
    /// Replace the active state.
    Switch(S),
    /// Stop the machine, popping every state.
    Quit,
}

/// One lifecycle callback the embedding must perform, in the order
/// returned. `Stop` hands the popped state back by value; the other
/// operations name a position in the machine's current stack.
pub enum StateOp<S> {
    /// Call the stopped hook on this state, which has left the stack.
    Stop(S),
    /// Call the suspended hook on the state at this stack position.
    Suspend(usize),
    /// Call the started hook on the state at this stack position.
    Start(usize),
    /// Call the resumed hook on the state at this stack position.
    Resume(usize),
}

/// A stack of states plus a running flag; every mutation reports the
/// lifecycle callbacks it entails.
pub struct StateMachine<S> {
    running: bool,
    states: Vec<S>,
}

impl<S> StateMachine<S> {
    /// Whether the machine has been started and not yet stopped.
    pub closed spec fn spec_running(&self) -> bool {
        self.running
    }

    /// The state stack, bottom first; the last element is active.
    pub closed spec fn spec_states(&self) -> Seq<S> {
        self.states@
    }

    /// A machine holding `initial_state` alone, not yet running.
    pub fn new(initial_state: S) -> (r: Self)
        ensures
            !r.spec_running(),
            r.spec_states() == seq![initial_state],
    {
        let mut states = Vec::new();
        states.push(initial_state);
        StateMachine { running: false, states }
    }

    pub fn is_running(&self) -> (r: bool)
        ensures
            r == self.spec_running(),
    {
        self.running
    }

    /// The active state — the top of the stack — or `None` while the
    /// machine is not running. An embedding that labels its states can
    /// read the label from the returned state.
    pub fn active_state(&self) -> (r: Option<&S>)
        ensures
            r.is_some() == (self.spec_running() && self.spec_states().len() > 0),
            r.is_some() ==> *r.unwrap() == self.spec_states().last(),
    {
        if !self.running {
            return None;
        }
        if self.states.len() == 0 {
            return None;
        }
        Some(&self.states[self.states.len() - 1])
    }

    /// Mutable access to the active state, running or not; fails only on
    /// an empty stack.
    pub fn active_state_mut(&mut self) -> (r: Result<&mut S, StateMachineError>)
        ensures
            r.is_ok() == (old(self).spec_states().len() > 0),
            final(self).spec_running() == old(self).spec_running(),
            r is Err ==> r == Err::<&mut S, StateMachineError>(StateMachineError::NoStatesPresent)
                && final(self).spec_states() == old(self).spec_states(),
            r is Ok ==> *r.unwrap() == old(self).spec_states().last() && final(self).spec_states()
                == old(self).spec_states().update(
                old(self).spec_states().len() - 1,
                *final(r.unwrap()),
            ),
    {
        if self.states.len() == 0 {
            return Err(StateMachineError::NoStatesPresent);
        }
        let i = self.states.len() - 1;
        Ok(&mut self.states[i])
    }

    /// Mutable access to the state at `index`, counted from the bottom of
    /// the stack; the positions in returned [`StateOp`]s point here.
    pub fn state_mut(&mut self, index: usize) -> (r: Option<&mut S>)
        ensures
            r.is_some() == (index < old(self).spec_states().len()),
            final(self).spec_running() == old(self).spec_running(),
            r is None ==> final(self).spec_states() == old(self).spec_states(),
            r is Some ==> *r.unwrap() == old(self).spec_states()[index as int]
                && final(self).spec_states() == old(self).spec_states().update(
                index as int,
                *final(r.unwrap()),
            ),
    {
        if index < self.states.len() {
            Some(&mut self.states[index])
        } else {
            None
        }
    }

    /// Starts the machine: a no-op when already running, otherwise the
    /// embedding must start the active state. Mirroring the stack's
    /// discipline, the machine is flagged running even when the start
    /// fails for want of any state.
    pub fn start(&mut self) -> (r: Result<Vec<StateOp<S>>, StateMachineError>)
        ensures
            final(self).spec_states() == old(self).spec_states(),
            old(self).spec_running() ==> final(self).spec_running() && r is Ok
                && r.unwrap()@ == Seq::<StateOp<S>>::empty(),
            !old(self).spec_running() ==> final(self).spec_running() && (if old(
                self,
            ).spec_states().len() == 0 {
                r == Err::<Vec<StateOp<S>>, StateMachineError>(StateMachineError::NoStatesPresent)
            } else {
                r is Ok && r.unwrap()@ == seq![
                    StateOp::<S>::Start((old(self).spec_states().len() - 1) as usize),
                ]
            }),
    {
        if self.running {
            return Ok(Vec::new());
        }
        self.running = true;
        if self.states.len() == 0 {
            return Err(StateMachineError::NoStatesPresent);
        }
        let mut ops: Vec<StateOp<S>> = Vec::new();
        ops.push(StateOp::Start(self.states.len() - 1));
        Ok(ops)
    }

    /// Stops a running machine: every state leaves the stack, top first,
    /// each handed back for its stopped hook; then the flag clears. A
    /// stopped machine is left alone.
    pub fn stop(&mut self) -> (ops: Vec<StateOp<S>>)
        ensures
            !old(self).spec_running() ==> final(self).spec_running() == old(self).spec_running()
                && final(self).spec_states() == old(self).spec_states() && ops@ == Seq::<
                StateOp<S>,
            >::empty(),
            old(self).spec_running() ==> !final(self).spec_running() && final(self).spec_states()
                == Seq::<S>::empty() && ops@.len() == old(self).spec_states().len() && (forall|
                k: int,
            |
                0 <= k < ops@.len() ==> ops@[k] == StateOp::Stop(
                    old(self).spec_states()[old(self).spec_states().len() - 1 - k],
                )),
    {
        let mut ops: Vec<StateOp<S>> = Vec::new();
        if !self.running {
            return ops;
        }
        let ghost states0 = self.states@;
        while self.states.len() > 0
            invariant
                ops@.len() + self.states@.len() == states0.len(),
                self.states@ == states0.subrange(0, self.states@.len() as int),
                forall|k: int|
                    0 <= k < ops@.len() ==> ops@[k] == StateOp::Stop(
                        states0[states0.len() - 1 - k],
                    ),
            decreases self.states@.len(),
        {
            let s = self.states.pop().unwrap();
            ops.push(StateOp::Stop(s));
            proof {
                assert(self.states@ =~= states0.subrange(0, self.states@.len() as int));
            }
        }
        self.running = false;
        ops
    }

    /// Applies a transition requested by the active state and reports the
    /// callbacks it entails. A machine that is not running ignores the
    /// request entirely.
    pub fn transition(&mut self, request: Transition<S>) -> (ops: Vec<StateOp<S>>)
        ensures
            !old(self).spec_running() ==> final(self).spec_running() == old(self).spec_running()
                && final(self).spec_states() == old(self).spec_states() && ops@ == Seq::<
                StateOp<S>,
            >::empty(),
            old(self).spec_running() ==> match request {
                Transition::Stay => final(self).spec_running() && final(self).spec_states() == old(
                    self,
                ).spec_states() && ops@ == Seq::<StateOp<S>>::empty(),
                Transition::Pop => ({
                    let n = old(self).spec_states().len();
                    if n == 0 {
                        !final(self).spec_running() && final(self).spec_states() == old(
                            self,
                        ).spec_states() && ops@ == Seq::<StateOp<S>>::empty()
                    } else if n == 1 {
                        !final(self).spec_running() && final(self).spec_states() == old(
                            self,
                        ).spec_states().drop_last() && ops@ == seq![
                            StateOp::Stop(old(self).spec_states().last()),
                        ]
                    } else {
                        final(self).spec_running() && final(self).spec_states() == old(
                            self,
                        ).spec_states().drop_last() && ops@ == seq![
                            StateOp::Stop(old(self).spec_states().last()),
                            StateOp::<S>::Resume((n - 2) as usize),
                        ]
                    }
                }),
                Transition::Push(s) => final(self).spec_running() && final(self).spec_states()
                    == old(self).spec_states().push(s) && ops@ == (if old(
                    self,
                ).spec_states().len() > 0 {
                    seq![
                        StateOp::<S>::Suspend((old(self).spec_states().len() - 1) as usize),
                        StateOp::<S>::Start(old(self).spec_states().len() as usize),
                    ]
                } else {
                    seq![StateOp::<S>::Start(0usize)]
                }),
                Transition::Switch(s) => final(self).spec_running() && (if old(
                    self,
                ).spec_states().len() > 0 {
                    final(self).spec_states() == old(self).spec_states().drop_last().push(s)
                        && ops@ == seq![
                        StateOp::Stop(old(self).spec_states().last()),
                        StateOp::<S>::Start((old(self).spec_states().len() - 1) as usize),
                    ]
                } else {
                    final(self).spec_states() == old(self).spec_states().push(s) && ops@ == seq![
                        StateOp::<S>::Start(0usize),
                    ]
                }),
                Transition::Quit => !final(self).spec_running() && final(self).spec_states()
                    == Seq::<S>::empty() && ops@.len() == old(self).spec_states().len() && (forall|
                    k: int,
                |
                    0 <= k < ops@.len() ==> ops@[k] == StateOp::Stop(
                        old(self).spec_states()[old(self).spec_states().len() - 1 - k],
                    )),
            },
    {
        if !self.running {
            return Vec::new();
        }
        match request {
            Transition::Stay => Vec::new(),
            Transition::Pop => {
                let mut ops: Vec<StateOp<S>> = Vec::new();
                match self.states.pop() {
                    Some(s) => {
                        ops.push(StateOp::Stop(s));
                        if self.states.len() > 0 {
                            ops.push(StateOp::Resume(self.states.len() - 1));
                        } else {
                            self.running = false;
                        }
                    },
                    None => {
                        self.running = false;
                    },
                }
                ops
            },
            Transition::Push(s) => {
                let mut ops: Vec<StateOp<S>> = Vec::new();
                if self.states.len() > 0 {
                    ops.push(StateOp::Suspend(self.states.len() - 1));
                }
                self.states.push(s);
                ops.push(StateOp::Start(self.states.len() - 1));
                ops
            },
            Transition::Switch(s) => {
                let mut ops: Vec<StateOp<S>> = Vec::new();
                match self.states.pop() {
                    Some(popped) => {
                        ops.push(StateOp::Stop(popped));
                    },
                    None => (),
                }
                self.states.push(s);
                ops.push(StateOp::Start(self.states.len() - 1));
                ops
            },
            Transition::Quit => self.stop(),
        }
    }
}

} // verus!
