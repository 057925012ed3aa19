//! What has to be run to check a lock unit out with git. Running it is left
//! to the caller.

use vstd::prelude::*;
use crate::model::{default_branch, texts, LockType, LockUnit, LockView, PinView};

verus! {

/// One call of git: the directory it runs in, and its arguments.
#[derive(Clone, Debug, PartialEq, Eq)]
pub struct GitCall {
    pub dir: String,
    pub args: Vec<String>,
}

/// A checkout: whether the target directory is made first, and the calls of
/// git, in order.
#[derive(Clone, Debug, PartialEq, Eq)]
pub struct Checkout {
    pub make_target: bool,
    pub calls: Vec<GitCall>,
}

/// The value of a [`GitCall`].
pub struct CallView {
    pub dir: Seq<char>,
    pub args: Seq<Seq<char>>,
}

impl View for GitCall {
    type V = CallView;

    open spec fn view(&self) -> CallView {
        CallView { dir: self.dir@, args: texts(self.args@) }
    }
}

/// The values of a sequence of calls.
pub open spec fn call_views(calls: Seq<GitCall>) -> Seq<CallView> {
    Seq::new(calls.len(), |i: int| calls[i]@)
}

/// The calls that check `lock` out into `target`, a directory in `deps_dir`.
///
/// A commit is fetched alone into a repository made in `target`. A branch is
/// cloned from `deps_dir`, without its history; the branch `default` stands
/// for the branch that the repository itself checks out.
pub open spec fn checkout_calls(lock: LockView, deps_dir: Seq<char>, target: Seq<char>) -> Seq<
    CallView,
> {
    match lock.pin {
        PinView::Commit(commit) => seq![
            CallView { dir: target, args: seq!["init"@, "-q"@] },
            CallView { dir: target, args: seq!["remote"@, "add"@, "origin"@, lock.repo] },
            CallView {
                dir: target,
                args: seq!["fetch"@, "-q"@, "--depth=1"@, "origin"@, commit],
            },
            CallView { dir: target, args: seq!["checkout"@, "-q"@, "FETCH_HEAD"@] },
        ],
        PinView::Branch(branch) => seq![
            CallView {
                dir: deps_dir,
                args: if branch == default_branch() {
                    seq!["clone"@, "-q"@, "--depth=1"@, lock.repo, target]
                } else {
                    seq!["clone"@, "-q"@, "--depth=1"@, lock.repo, "-b"@, branch, target]
                },
            },
        ],
    }
}

fn call(dir: &str, args: Vec<String>) -> (r: GitCall)
    ensures
        r@ == (CallView { dir: dir@, args: texts(args@) }),
{
    GitCall { dir: String::from_str(dir), args }
}

/// How to check `lock` out into `target`, a directory in `deps_dir`: the
/// target is made first for a commit, and git is called as
/// [`checkout_calls`] says.
pub fn net_installer(deps_dir: &str, target: &str, lock: &LockUnit) -> (plan: Checkout)
    ensures
        plan.make_target == (lock@.pin is Commit),
        call_views(plan.calls@) == checkout_calls(lock@, deps_dir@, target@),
{
    let mut calls: Vec<GitCall> = Vec::new();
    match &lock.lock_type {
        LockType::Commit(commit) => {
            let mut init: Vec<String> = Vec::new();
            init.push(String::from_str("init"));
            init.push(String::from_str("-q"));
            assert(texts(init@) =~= seq!["init"@, "-q"@]);
            let mut remote: Vec<String> = Vec::new();
            remote.push(String::from_str("remote"));
            remote.push(String::from_str("add"));
            remote.push(String::from_str("origin"));
            remote.push(lock.repo.clone());
            assert(texts(remote@) =~= seq!["remote"@, "add"@, "origin"@, lock.repo@]);
            let mut fetch: Vec<String> = Vec::new();
            fetch.push(String::from_str("fetch"));
            fetch.push(String::from_str("-q"));
            fetch.push(String::from_str("--depth=1"));
            fetch.push(String::from_str("origin"));
            fetch.push(commit.clone());
            assert(texts(fetch@) =~= seq!["fetch"@, "-q"@, "--depth=1"@, "origin"@, commit@]);
            let mut checkout: Vec<String> = Vec::new();
            checkout.push(String::from_str("checkout"));
            checkout.push(String::from_str("-q"));
            checkout.push(String::from_str("FETCH_HEAD"));
            assert(texts(checkout@) =~= seq!["checkout"@, "-q"@, "FETCH_HEAD"@]);
            calls.push(call(target, init));
            calls.push(call(target, remote));
            calls.push(call(target, fetch));
            calls.push(call(target, checkout));
            assert(call_views(calls@) =~= checkout_calls(lock@, deps_dir@, target@));
            Checkout { make_target: true, calls }
        },
        LockType::Branch(branch) => {
            proof {
                reveal_strlit("default");
            }
            let plain = String::from_str("default");
            assert(plain@ =~= default_branch());
            let mut clone: Vec<String> = Vec::new();
            clone.push(String::from_str("clone"));
            clone.push(String::from_str("-q"));
            clone.push(String::from_str("--depth=1"));
            clone.push(lock.repo.clone());
            if *branch != plain {
                clone.push(String::from_str("-b"));
                clone.push(branch.clone());
            }
            clone.push(String::from_str(target));
            assert(texts(clone@) =~= if branch@ == default_branch() {
                seq!["clone"@, "-q"@, "--depth=1"@, lock.repo@, target@]
            } else {
                seq!["clone"@, "-q"@, "--depth=1"@, lock.repo@, "-b"@, branch@, target@]
            });
            calls.push(call(deps_dir, clone));
            assert(call_views(calls@) =~= checkout_calls(lock@, deps_dir@, target@));
            Checkout { make_target: false, calls }
        },
    }
}

/// Reads what a call of git wrote to its error stream: anything written is a
/// failure, and is the message.
pub fn with_stderr(stderr: String) -> (r: Result<(), String>)
    ensures
        match r {
            Ok(_) => stderr@.len() == 0,
            Err(message) => stderr@.len() > 0 && message == stderr,
        },
{
    if stderr.as_str().is_empty() {
        Ok(())
    } else {
        Err(stderr)
    }
}

} // verus!
