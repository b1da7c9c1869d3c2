//! Decisions of the store-synchronization flows. The version-control work
//! itself is an external collaborator; the library only decides, from what
//! the collaborator reports, which steps a flow performs.

use vstd::prelude::*;

verus! {

/// What a pull invocation does, given the store's state.
#[derive(PartialEq, Eq, Structural, Clone, Copy, Debug)]
pub enum PullAction {
    /// The store is not a repository: report and do nothing.
    SkipNotRepo,
    /// The store has no remote: report and do nothing.
    SkipNoRemote,
    /// Pull from the remote.
    Pull,
}

/// A pull proceeds only in a repository that has a remote; otherwise it is
/// skipped, naming the first missing precondition.
pub fn pull_action(is_repo: bool, has_remote: bool) -> (r: PullAction)
    ensures
        r == if !is_repo {
            PullAction::SkipNotRepo
        } else if !has_remote {
            PullAction::SkipNoRemote
        } else {
            PullAction::Pull
        },
{
    if !is_repo {
        PullAction::SkipNotRepo
    } else if !has_remote {
        PullAction::SkipNoRemote
    } else {
        PullAction::Pull
    }
}

/// What a push invocation must set up first, given the store's state: a
/// repository is initialized when absent and a remote is created when
/// absent; committing and pushing always follow.
pub fn push_setup(is_repo: bool, has_remote: bool) -> (r: (bool, bool))
    ensures
        r.0 == !is_repo,
        r.1 == !has_remote,
{
    (!is_repo, !has_remote)
}

} // verus!
