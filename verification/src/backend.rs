//! Capability negotiation: a white-box oracle (one that reads internal node
//! state) cannot be paired with a black-box executor. Negotiation runs once,
//! before any seed executes, and names the offending oracles.

use vstd::prelude::*;

use crate::needs::{Needs, Produces};
use crate::text::{push_str, string_of};

verus! {

/// An error from composing or negotiating a backend.
#[derive(Clone, Debug, PartialEq, Eq)]
pub enum BackendError {
    /// One or more white-box oracles were paired with a black-box executor.
    /// Carries the offending oracle names.
    WhiteBoxOraclesOnBlackBoxExecutor(Vec<String>),
}

/// The names of the oracles in `oracles` that need the world, in order.
pub open spec fn white_box_names(oracles: Seq<(String, Needs)>) -> Seq<Seq<char>>
    decreases oracles.len(),
{
    if oracles.len() == 0 {
        Seq::empty()
    } else {
        let rest = white_box_names(oracles.drop_last());
        if oracles.last().1 == Needs::World {
            rest.push(oracles.last().0@)
        } else {
            rest
        }
    }
}

/// The views of a list of names.
pub open spec fn names_view(names: Seq<String>) -> Seq<Seq<char>> {
    Seq::new(names.len(), |i: int| names[i]@)
}

/// Negotiation for a plan's properties: every property reads world
/// snapshots, so on an executor without them each property is refused, and
/// the error names them all in plan order.
pub fn validate_properties(caps: Produces, names: Vec<String>) -> (r: Result<(), BackendError>)
    ensures
        r is Ok <==> (caps.world_snapshots || names@.len() == 0),
        r matches Err(BackendError::WhiteBoxOraclesOnBlackBoxExecutor(offenders)) ==> offenders@
            == names@,
{
    if caps.world_snapshots || names.len() == 0 {
        Ok(())
    } else {
        Err(BackendError::WhiteBoxOraclesOnBlackBoxExecutor(names))
    }
}

/// The capability-negotiation rule, over the executor's capabilities and each
/// oracle's name and needs: on an executor without world snapshots, every
/// oracle that needs the world is refused, by name.
pub fn validate(caps: Produces, oracles: &Vec<(String, Needs)>) -> (r: Result<(), BackendError>)
    ensures
        caps.world_snapshots ==> r is Ok,
        !caps.world_snapshots ==> (r is Ok <==> white_box_names(oracles@).len() == 0),
        r matches Err(BackendError::WhiteBoxOraclesOnBlackBoxExecutor(names)) ==> names_view(
            names@,
        ) == white_box_names(oracles@),
{
    if caps.world_snapshots {
        return Ok(());
    }
    let mut offenders: Vec<String> = Vec::new();
    let mut i: usize = 0;
    assert(oracles@.take(0) =~= Seq::<(String, Needs)>::empty());
    while i < oracles.len()
        invariant
            i <= oracles.len(),
            names_view(offenders@) == white_box_names(oracles@.take(i as int)),
        decreases oracles.len() - i,
    {
        let ghost before = offenders@;
        assert(oracles@.take(i + 1).drop_last() =~= oracles@.take(i as int));
        assert(oracles@.take(i + 1).last() == oracles@[i as int]);
        match oracles[i].1 {
            Needs::World => {
                offenders.push(oracles[i].0.clone());
                assert(names_view(offenders@) =~= names_view(before).push(oracles@[i as int].0@));
            },
            Needs::History => {},
        }
        i = i + 1;
    }
    assert(oracles@.take(oracles.len() as int) =~= oracles@);
    if offenders.len() == 0 {
        Ok(())
    } else {
        Err(BackendError::WhiteBoxOraclesOnBlackBoxExecutor(offenders))
    }
}

/// Names joined with `", "`.
pub open spec fn join_names(names: Seq<Seq<char>>) -> Seq<char>
    decreases names.len(),
{
    if names.len() == 0 {
        Seq::empty()
    } else if names.len() == 1 {
        names[0]
    } else {
        join_names(names.drop_last()) + ", "@ + names.last()
    }
}

/// The text that opens the negotiation error.
pub open spec fn refusal_head() -> Seq<char> {
    "the following oracle(s) read internal node state, but the chosen executor is black-box (produces no world snapshots): "@
}

/// The text that closes the negotiation error.
pub open spec fn refusal_tail() -> Seq<char> {
    ". Use the deterministic executor, or target a history-based oracle."@
}

impl BackendError {
    /// The human-readable description, naming the offending oracles.
    pub fn to_string(&self) -> (s: String)
        ensures
            match self {
                BackendError::WhiteBoxOraclesOnBlackBoxExecutor(names) => s@ == refusal_head()
                    + join_names(names_view(names@)) + refusal_tail(),
            },
    {
        match self {
            BackendError::WhiteBoxOraclesOnBlackBoxExecutor(names) => {
                let mut out: Vec<char> = Vec::new();
                push_str(
                    &mut out,
                    "the following oracle(s) read internal node state, but the chosen executor is black-box (produces no world snapshots): ",
                );
                let ghost head = out@;
                let ghost nv = names_view(names@);
                let mut i: usize = 0;
                assert(nv.take(0) =~= Seq::<Seq<char>>::empty());
                while i < names.len()
                    invariant
                        i <= names.len(),
                        nv == names_view(names@),
                        out@ == head + join_names(nv.take(i as int)),
                    decreases names.len() - i,
                {
                    if i > 0 {
                        push_str(&mut out, ", ");
                    }
                    push_str(&mut out, names[i].as_str());
                    proof {
                        assert(nv.take(i + 1).drop_last() =~= nv.take(i as int));
                        assert(nv.take(i + 1).last() == names@[i as int]@);
                        if i == 0 {
                            assert(nv.take(1)[0] == names@[0]@);
                        }
                    }
                    i = i + 1;
                }
                assert(nv.take(names.len() as int) =~= nv);
                push_str(&mut out, ". Use the deterministic executor, or target a history-based oracle.");
                string_of(&out)
            },
        }
    }
}

} // verus!
