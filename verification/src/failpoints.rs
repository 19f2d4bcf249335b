//! Failpoints: named places at which a fault can be injected.
use vstd::prelude::*;

verus! {

/// What the `fail` crate says against a list of actions: nothing if it can be read, and else a
/// message.
pub uninterp spec fn actions_problem(actions: Seq<char>) -> Option<Seq<char>>;

/// `fail::cfg`: arms a failpoint with actions, or takes the actions away. It succeeds if the
/// actions can be read, and else says why they cannot. What the message is, and which actions can
/// be read, is given a name and not spelled out; neither depends on the failpoint. That the
/// failpoint then acts as told is not stated.
#[verifier::external_body]
pub fn cfg(name: &str, action: &str) -> (r: Result<(), String>)
    ensures
        match r {
            Ok(_) => actions_problem(action@) is None,
            Err(message) => actions_problem(action@) == Some(message@),
        },
{
    fail::cfg(name, action)
}

} // verus!
