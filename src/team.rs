//! Rank deference among the bots of one team.
use indexmap::IndexSet;
use vstd::prelude::*;

verus! {

/// indexmap's ordered set, which holds a team's identities in rank order.
#[verifier::external_type_specification]
#[verifier::external_body]
#[verifier::reject_recursive_types(T)]
#[verifier::reject_recursive_types(S)]
pub struct ExIndexSet<T, S>(IndexSet<T, S>);

/// The identities that a team set holds, in insertion order.
pub uninterp spec fn members(t: IndexSet<u32>) -> Seq<u32>;

/// Relies on IndexSet::get_index_of: the position of a value in insertion
/// order, where each value stands once.
#[verifier::external_body]
pub(crate) fn index_of(team: &IndexSet<u32>, uid: u32) -> (r: Option<usize>)
    ensures
        match r {
            Some(i) => {
                &&& i < members(*team).len()
                &&& members(*team)[i as int] == uid
                &&& forall|j: int|
                    0 <= j < members(*team).len() && #[trigger] members(*team)[j] == uid ==> j
                        == i
            },
            None => !members(*team).contains(uid),
        },
{
    team.get_index_of(&uid)
}

/// Relies on IndexSet::contains: whether a value is in the set.
#[verifier::external_body]
pub(crate) fn holds(team: &IndexSet<u32>, uid: u32) -> (r: bool)
    ensures
        r == members(*team).contains(uid),
{
    team.contains(&uid)
}

/// A teammate's land is protected from a bot of rank `rank` when the
/// teammate's one-based rank is greater.
pub open spec fn outranked(team: Seq<u32>, rank: usize, uid: u32) -> bool {
    exists|i: int| 0 <= i < team.len() && #[trigger] team[i] == uid && i + 1 > rank
}

/// Whether the land of `uid` is protected from the bot of rank `rank`.
pub fn protected(team: &IndexSet<u32>, rank: usize, uid: u32) -> (r: bool)
    ensures
        r == outranked(members(*team), rank, uid),
        1 <= rank <= members(*team).len() && members(*team)[rank - 1] == uid ==> !r,
{
    match index_of(team, uid) {
        Some(i) => i >= rank,
        None => false,
    }
}

} // verus!
