//! From a declaration to the lock unit it stands for.

use vstd::prelude::*;
use crate::error::{ErrorView, ResolveError};
use crate::model::{default_branch, Dep, DepType, LockType, LockUnit, LockView, PinView, texts};
use crate::versions::{best_match, pick, tag_views, TagView, VersionTag};

verus! {

/// The declaration counts: it has no flag, or its flag is switched on.
pub open spec fn enabled(dep: Dep, flags: Seq<Seq<char>>) -> bool {
    match dep.option_name {
        Some(flag) => flags.contains(flag@),
        None => true,
    }
}

/// The requirement of a declaration that is pinned by one.
pub open spec fn range_of(dep: Dep) -> Option<Seq<char>> {
    match dep.dep_type {
        Some(DepType::Version(range)) => Some(range@),
        _ => None,
    }
}

/// The lock unit of a declaration, `tags` being the tags of its repository:
/// a branch or a commit as declared, the branch `default` where nothing is
/// declared, and for a requirement the commit of the last tag it admits.
/// `None` where the requirement admits no tag.
pub open spec fn lock_spec(dep: Dep, tags: Seq<TagView>) -> Option<LockView> {
    match dep.dep_type {
        None => Some(LockView { repo: dep.repo@, pin: PinView::Branch(default_branch()) }),
        Some(DepType::Branch(branch)) => Some(
            LockView { repo: dep.repo@, pin: PinView::Branch(branch@) },
        ),
        Some(DepType::Commit(commit)) => Some(
            LockView { repo: dep.repo@, pin: PinView::Commit(commit@) },
        ),
        Some(DepType::Version(range)) => match pick(tags, range@) {
            Some(k) => Some(LockView { repo: dep.repo@, pin: PinView::Commit(tags[k].commit) }),
            None => None,
        },
    }
}

/// Whether the declaration counts under the flags that are switched on.
pub fn is_enabled(dep: &Dep, flags: &[String]) -> (r: bool)
    ensures
        r == enabled(*dep, texts(flags@)),
{
    match &dep.option_name {
        None => true,
        Some(flag) => {
            let mut i: usize = 0;
            while i < flags.len()
                invariant
                    i <= flags.len(),
                    dep.option_name == Some(*flag),
                    forall|k: int| 0 <= k < i ==> texts(flags@)[k] != flag@,
                decreases flags.len() - i,
            {
                if flags[i] == *flag {
                    assert(texts(flags@)[i as int] == flag@);
                    assert(texts(flags@).contains(flag@));
                    return true;
                }
                i += 1;
            }
            false
        },
    }
}

/// Resolves a declaration to its lock unit. `tags` are the tags of the
/// declaration's repository, in ascending order; they are read only where
/// the declaration is pinned by a requirement.
///
/// Fails where the requirement admits none of the tags.
pub fn resolve(dep: &Dep, tags: &[VersionTag]) -> (r: Result<LockUnit, ResolveError>)
    ensures
        match r {
            Ok(lock) => lock_spec(*dep, tag_views(tags@)) == Some(lock@),
            Err(e) => lock_spec(*dep, tag_views(tags@)) is None && range_of(*dep) is Some && e@
                == (ErrorView::NoMatchingVersion { repo: dep.repo@, range: range_of(*dep)->0 }),
        },
{
    let lock_type = match &dep.dep_type {
        None => {
            proof {
                reveal_strlit("default");
            }
            let branch = String::from_str("default");
            assert(branch@ =~= default_branch());
            LockType::Branch(branch)
        },
        Some(DepType::Branch(branch)) => LockType::Branch(branch.clone()),
        Some(DepType::Commit(commit)) => LockType::Commit(commit.clone()),
        Some(DepType::Version(range)) => match best_match(tags, range.as_str()) {
            Some(k) => {
                assert(tag_views(tags@)[k as int] == tags@[k as int]@);
                LockType::Commit(tags[k].commit.clone())
            },
            None => {
                return Err(
                    ResolveError::NoMatchingVersion {
                        repo: dep.repo.clone(),
                        range: range.clone(),
                    },
                );
            },
        },
    };
    Ok(LockUnit { repo: dep.repo.clone(), lock_type })
}

} // verus!
