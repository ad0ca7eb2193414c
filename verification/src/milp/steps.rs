//! What becomes of a solver that is told or asked something. Nothing is known of
//! a solver but what its methods may return and leave of it: these functions call
//! them, one each, and the spec functions beside them relate the solver before
//! such a call to the solver after it.
use crate::milp::stage::Staged;
use crate::milp::{MilpModel, MilpSolution};
use vstd::prelude::*;

verus! {

/// A solver may begin as this.
pub open spec fn may_begin<M: MilpModel>(first: M) -> bool {
    call_ensures(M::new, (), first)
}

/// A solver may give this for its name.
pub open spec fn may_be_named<M: MilpModel>(model: M, name: Seq<char>) -> bool {
    exists|text: String|
        text@ == name && #[trigger] call_ensures(M::backend_name, (&model,), text)
}

/// A solver may say so of its MIP start.
pub open spec fn may_support<M: MilpModel>(model: M, supported: bool) -> bool {
    call_ensures(M::supports_warm_start, (&model,), supported)
}

/// `text` is what a solver may return for the log at `path`, if one was asked for.
pub open spec fn is_log<M: MilpModel>(
    model: M,
    path: Option<String>,
    text: Option<String>,
) -> bool {
    match path {
        Some(p) => exists|name: &str|
            name@ == p@ && #[trigger] call_ensures(M::read_log, (&model, name), text),
        None => text is None,
    }
}

/// The log at `path`, if one was asked for.
pub fn read_log_of<M: MilpModel>(model: &M, path: &Option<String>) -> (text: Option<String>)
    ensures
        is_log(*model, *path, text),
{
    match path {
        Some(path) => model.read_log(path.as_str()),
        None => None,
    }
}

/// [`MilpModel::set_time_limit_seconds`]. What the solver is then is returned too.
pub fn use_limit<M: MilpModel>(model: &mut M, seconds: u32) -> (after: Ghost<M>)
    ensures
        after@ == *final(model),
        exists|handle: &mut M|
            {
                &&& *handle == *old(model)
                &&& *final(handle) == *final(model)
                &&& #[trigger] call_ensures(M::set_time_limit_seconds, (handle, seconds), ())
            },
{
    model.set_time_limit_seconds(seconds);
    Ghost(*model)
}

/// A solver given that time limit may become this.
pub open spec fn may_limit<M: MilpModel>(before: M, seconds: u32, after: M) -> bool {
    exists|handle: &mut M|
        *handle == before && #[trigger] call_ensures(use_limit::<M>, (handle, seconds), Ghost(after))
}

/// [`MilpModel::set_threads`]. What the solver is then is returned too.
pub fn use_threads<M: MilpModel>(model: &mut M, threads: u32) -> (after: Ghost<M>)
    ensures
        after@ == *final(model),
        exists|handle: &mut M|
            {
                &&& *handle == *old(model)
                &&& *final(handle) == *final(model)
                &&& #[trigger] call_ensures(M::set_threads, (handle, threads), ())
            },
{
    model.set_threads(threads);
    Ghost(*model)
}

/// A solver told to use so many threads may become this.
pub open spec fn may_use_threads<M: MilpModel>(before: M, threads: u32, after: M) -> bool {
    exists|handle: &mut M|
        *handle == before && #[trigger] call_ensures(use_threads::<M>, (handle, threads), Ghost(after))
}

/// [`MilpModel::set_log_level`]. What the solver is then is returned too.
pub fn use_log_level<M: MilpModel>(model: &mut M, level: u32) -> (after: Ghost<M>)
    ensures
        after@ == *final(model),
        exists|handle: &mut M|
            {
                &&& *handle == *old(model)
                &&& *final(handle) == *final(model)
                &&& #[trigger] call_ensures(M::set_log_level, (handle, level), ())
            },
{
    model.set_log_level(level);
    Ghost(*model)
}

/// A solver told to log so much may become this.
pub open spec fn may_log_at<M: MilpModel>(before: M, level: u32, after: M) -> bool {
    exists|handle: &mut M|
        *handle == before && #[trigger] call_ensures(use_log_level::<M>, (handle, level), Ghost(after))
}

/// [`MilpModel::set_log_file`]. What the solver is then is returned too.
pub fn use_log_file<M: MilpModel>(model: &mut M, path: &str) -> (after: Ghost<M>)
    ensures
        after@ == *final(model),
        exists|handle: &mut M|
            {
                &&& *handle == *old(model)
                &&& *final(handle) == *final(model)
                &&& #[trigger] call_ensures(M::set_log_file, (handle, path), ())
            },
{
    model.set_log_file(path);
    Ghost(*model)
}

/// A solver told to log there may become this.
pub open spec fn may_log_to<M: MilpModel>(before: M, path: Seq<char>, after: M) -> bool {
    exists|handle: &mut M, path_text: &str|
        {
            &&& *handle == before
            &&& path_text@ == path
            &&& #[trigger] call_ensures(use_log_file::<M>, (handle, path_text), Ghost(after))
        }
}

/// [`MilpModel::set_raw_parameter`]. What the solver is then is returned too.
pub fn use_parameter<M: MilpModel>(model: &mut M, key: &str, value: &str) -> (after: Ghost<M>)
    ensures
        after@ == *final(model),
        exists|handle: &mut M|
            {
                &&& *handle == *old(model)
                &&& *final(handle) == *final(model)
                &&& #[trigger] call_ensures(M::set_raw_parameter, (handle, key, value), ())
            },
{
    model.set_raw_parameter(key, value);
    Ghost(*model)
}

/// A solver handed that parameter may become this.
pub open spec fn may_pass<M: MilpModel>(before: M, key: Seq<char>, value: Seq<char>, after: M) -> bool {
    exists|handle: &mut M, key_text: &str, value_text: &str|
        {
            &&& *handle == before
            &&& key_text@ == key
            &&& value_text@ == value
            &&& #[trigger] call_ensures(use_parameter::<M>, (handle, key_text, value_text), Ghost(after))
        }
}

/// [`MilpModel::solve`]. What the solver is then is returned too.
pub fn ask<M: MilpModel>(model: &mut M, staged: &Staged) -> (r: (MilpSolution, Ghost<M>))
    requires
        staged.wf(),
    ensures
        r.1@ == *final(model),
        exists|handle: &mut M|
            {
                &&& *handle == *old(model)
                &&& *final(handle) == *final(model)
                &&& #[trigger] call_ensures(M::solve, (handle, staged), r.0)
            },
{
    let solution: MilpSolution = model.solve(staged);
    let r: (MilpSolution, Ghost<M>) = (solution, Ghost(*model));
    proof {
        assert(r.0 == solution);
        assert forall|handle: &mut M| #[trigger]
            call_ensures(M::solve, (handle, staged), solution) implies call_ensures(
            M::solve,
            (handle, staged),
            r.0,
        ) by {}
    }
    r
}

/// A solver asked for a solution of a model may return this one, and become that.
pub open spec fn may_answer<M: MilpModel>(
    before: M,
    staged: Staged,
    solution: MilpSolution,
    after: M,
) -> bool {
    exists|handle: &mut M|
        *handle == before && #[trigger] call_ensures(
            ask::<M>,
            (handle, &staged),
            (solution, Ghost(after)),
        )
}

/// Some solver may return this solution of a model.
pub open spec fn may_solve<M: MilpModel>(staged: Staged, solution: MilpSolution) -> bool {
    exists|handle: &mut M| #[trigger] call_ensures(M::solve, (handle, &staged), solution)
}

/// What a solver may return for a model, some solver may return for it.
pub proof fn lemma_may_solve<M: MilpModel>(
    before: M,
    staged: Staged,
    solution: MilpSolution,
    after: M,
)
    requires
        may_answer(before, staged, solution, after),
    ensures
        may_solve::<M>(staged, solution),
{
}

/// `states` leads from `first` to `last` in `n` steps.
pub open spec fn leads<M>(states: Seq<M>, first: M, last: M, n: nat) -> bool {
    &&& states.len() == n + 1
    &&& states[0] == first
    &&& states[n as int] == last
}

/// There is an `i`th step.
pub open spec fn is_step<M>(states: Seq<M>, i: int) -> bool {
    0 <= i < states.len() - 1
}

/// A solver handed these parameters, each once and in order, may become this.
pub open spec fn may_tune<M: MilpModel>(
    before: M,
    params: Seq<(String, String)>,
    after: M,
) -> bool {
    exists|states: Seq<M>| #[trigger]
        leads(states, before, after, params.len()) && forall|i: int| #[trigger]
            is_step(states, i) ==> may_pass(
                states[i],
                params[i].0@,
                params[i].1@,
                states[i + 1],
            )
}

/// Passes backend-specific parameters on, each once and in order.
pub fn pass_parameters<M: MilpModel>(model: &mut M, params: &Vec<(String, String)>)
    ensures
        may_tune(*old(model), params@, *final(model)),
{
    let ghost mut states: Seq<M> = seq![*model];
    let mut i: usize = 0;
    while i < params.len()
        invariant
            i <= params@.len(),
            leads(states, *old(model), *model, i as nat),
            forall|j: int| #[trigger]
                is_step(states, j) ==> may_pass(
                    states[j],
                    params@[j].0@,
                    params@[j].1@,
                    states[j + 1],
                ),
        decreases params@.len() - i,
    {
        let ghost before = states;
        let key: &str = params[i].0.as_str();
        let value: &str = params[i].1.as_str();
        let ghost last = *model;
        let after: Ghost<M> = use_parameter(model, key, value);
        proof {
            states = before.push(after@);
            assert(may_pass(last, key@, value@, after@));
            assert forall|j: int| #[trigger] is_step(states, j) implies may_pass(
                states[j],
                params@[j].0@,
                params@[j].1@,
                states[j + 1],
            ) by {
                if j < i {
                    assert(is_step(before, j));
                }
            }
        }
        i += 1;
    }
    assert(leads(states, *old(model), *model, params@.len()));
}

} // verus!
