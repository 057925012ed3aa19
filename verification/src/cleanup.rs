//! Which directories are stale: those that no lock unit names.

use vstd::prelude::*;
use crate::error::{ErrorView, ResolveError};
use crate::model::{lock_views, texts, LockUnit, LockView};
use crate::naming::{dep_dir, dep_dir_spec};

verus! {

/// The lock unit at `k` is the first whose repository has an invalid
/// address.
pub open spec fn first_invalid(locks: Seq<LockView>, k: int) -> bool {
    &&& 0 <= k < locks.len()
    &&& dep_dir_spec(locks[k]) is None
    &&& forall|j: int| 0 <= j < k ==> dep_dir_spec(#[trigger] locks[j]) is Some
}

/// Some lock unit names the directory `dir`.
pub open spec fn is_locked(locks: Seq<LockView>, dir: Seq<char>) -> bool {
    exists|k: int| 0 <= k < locks.len() && dep_dir_spec(#[trigger] locks[k]) == Some(dir)
}

/// The entries that no lock unit names, in the order of `entries`.
pub open spec fn stale_entries(locks: Seq<LockView>, entries: Seq<Seq<char>>) -> Seq<Seq<char>> {
    entries.filter(|dir: Seq<char>| !is_locked(locks, dir))
}

/// The entries of the directory of dependencies that are to be deleted: those
/// that are not the directory of any of `locks`, in the order of `entries`.
///
/// Fails where a lock unit has an invalid address, with the first of them;
/// nothing is to be deleted then.
pub fn clean(locks: &[LockUnit], entries: &[String]) -> (r: Result<Vec<String>, ResolveError>)
    ensures
        match r {
            Ok(stale) => {
                &&& forall|k: int|
                    0 <= k < locks.len() ==> dep_dir_spec(#[trigger] lock_views(locks@)[k]) is Some
                &&& texts(stale@) == stale_entries(lock_views(locks@), texts(entries@))
            },
            Err(e) => exists|k: int|
                first_invalid(lock_views(locks@), k) && e@ == (ErrorView::InvalidRepoUrl {
                    repo: lock_views(locks@)[k].repo,
                }),
        },
{
    let ghost held = lock_views(locks@);
    let ghost listed = texts(entries@);
    let ghost keep = |dir: Seq<char>| !is_locked(held, dir);
    let mut dirs: Vec<String> = Vec::new();
    let mut k: usize = 0;
    while k < locks.len()
        invariant
            k <= locks.len(),
            held == lock_views(locks@),
            dirs.len() == k,
            forall|j: int| 0 <= j < k ==> dep_dir_spec(#[trigger] held[j]) == Some(dirs@[j]@),
        decreases locks.len() - k,
    {
        assert(held[k as int] == locks@[k as int]@);
        match dep_dir(&locks[k]) {
            Ok(dir) => {
                dirs.push(dir);
            },
            Err(e) => {
                assert(first_invalid(held, k as int));
                return Err(e);
            },
        }
        k += 1;
    }
    let mut stale: Vec<String> = Vec::new();
    let mut i: usize = 0;
    proof {
        assert(listed.take(0) =~= Seq::<Seq<char>>::empty());
        assert(texts(stale@) =~= listed.take(0).filter(keep));
    }
    while i < entries.len()
        invariant
            i <= entries.len(),
            held == lock_views(locks@),
            listed == texts(entries@),
            keep == |dir: Seq<char>| !is_locked(held, dir),
            dirs.len() == locks.len(),
            forall|j: int|
                0 <= j < locks.len() ==> dep_dir_spec(#[trigger] held[j]) == Some(dirs@[j]@),
            texts(stale@) == listed.take(i as int).filter(keep),
        decreases entries.len() - i,
    {
        let entry = &entries[i];
        let mut locked = false;
        let mut j: usize = 0;
        while j < dirs.len()
            invariant_except_break
                !locked,
            invariant
                j <= dirs.len(),
                dirs.len() == held.len(),
                forall|q: int|
                    0 <= q < dirs.len() ==> dep_dir_spec(#[trigger] held[q]) == Some(dirs@[q]@),
                forall|q: int| 0 <= q < j ==> dirs@[q]@ != entry@,
            ensures
                locked == is_locked(held, entry@),
            decreases dirs.len() - j,
        {
            if dirs[j] == *entry {
                locked = true;
                assert(dep_dir_spec(held[j as int]) == Some(entry@));
                break ;
            }
            j += 1;
        }
        proof {
            let seen = listed.take(i as int);
            assert(listed.take(i + 1) =~= seen.push(entry@));
            seen.lemma_filter_push(entry@, keep);
            assert(keep(entry@) == !locked);
        }
        if !locked {
            proof {
                assert(texts(stale@.push(*entry)) =~= texts(stale@).push(entry@));
            }
            stale.push(entry.clone());
        }
        i += 1;
    }
    proof {
        assert(listed.take(entries.len() as int) =~= listed);
    }
    Ok(stale)
}

} // verus!
