//! The lock artifact: the lock units of a resolve, each once and in order.

use vstd::prelude::*;
use crate::model::{lock_views, texts, Dep, LockFile, LockType, LockUnit, LockView, PinView};
use crate::text::{
    lemma_text_lt_asymmetric,
    lemma_text_lt_transitive,
    order_text,
    text_lt,
    Order,
};

verus! {

/// The order of pins: every branch before every commit, two branches by
/// name, two commits by hash.
pub open spec fn pin_lt(a: PinView, b: PinView) -> bool {
    match (a, b) {
        (PinView::Branch(x), PinView::Branch(y)) => text_lt(x, y),
        (PinView::Branch(_), PinView::Commit(_)) => true,
        (PinView::Commit(_), PinView::Branch(_)) => false,
        (PinView::Commit(x), PinView::Commit(y)) => text_lt(x, y),
    }
}

/// The order of lock units: by repository, then by pin.
pub open spec fn lock_lt(a: LockView, b: LockView) -> bool {
    text_lt(a.repo, b.repo) || (a.repo == b.repo && pin_lt(a.pin, b.pin))
}

/// The lock units stand in strictly ascending order, so none stands twice.
pub open spec fn locks_ascend(locks: Seq<LockView>) -> bool {
    forall|i: int, j: int| 0 <= i < j < locks.len() ==> lock_lt(locks[i], locks[j])
}

/// The two sequences hold the same lock units.
pub open spec fn same_locks(a: Seq<LockView>, b: Seq<LockView>) -> bool {
    &&& forall|i: int| 0 <= i < a.len() ==> b.contains(#[trigger] a[i])
    &&& forall|i: int| 0 <= i < b.len() ==> a.contains(#[trigger] b[i])
}

/// The order of lock units is transitive.
pub proof fn lemma_lock_lt_transitive(a: LockView, b: LockView, c: LockView)
    requires
        lock_lt(a, b),
        lock_lt(b, c),
    ensures
        lock_lt(a, c),
{
    if text_lt(a.repo, b.repo) && text_lt(b.repo, c.repo) {
        lemma_text_lt_transitive(a.repo, b.repo, c.repo);
    }
    if a.repo == b.repo && b.repo == c.repo {
        match (a.pin, b.pin, c.pin) {
            (PinView::Branch(x), PinView::Branch(y), PinView::Branch(z)) => {
                lemma_text_lt_transitive(x, y, z);
            },
            (PinView::Commit(x), PinView::Commit(y), PinView::Commit(z)) => {
                lemma_text_lt_transitive(x, y, z);
            },
            _ => {},
        }
    }
}

/// A lock unit that comes before another differs from it and does not come
/// after it.
pub proof fn lemma_lock_lt_asymmetric(a: LockView, b: LockView)
    requires
        lock_lt(a, b),
    ensures
        !lock_lt(b, a),
        a != b,
{
    if text_lt(a.repo, b.repo) {
        lemma_text_lt_asymmetric(a.repo, b.repo);
    } else {
        match (a.pin, b.pin) {
            (PinView::Branch(x), PinView::Branch(y)) => {
                lemma_text_lt_asymmetric(x, y);
            },
            (PinView::Commit(x), PinView::Commit(y)) => {
                lemma_text_lt_asymmetric(x, y);
            },
            _ => {},
        }
    }
}

/// Two ascending sequences that hold the same lock units are equal: what
/// the lock artifact lists is determined by the lock units that were
/// collected.
pub proof fn lemma_locks_unique(s: Seq<LockView>, t: Seq<LockView>)
    requires
        locks_ascend(s),
        locks_ascend(t),
        same_locks(s, t),
    ensures
        s == t,
    decreases s.len() + t.len(),
{
    if s.len() > 0 && t.len() > 0 {
        assert(t.contains(s[0]));
        assert(s.contains(t[0]));
        let j = choose|j: int| 0 <= j < t.len() && t[j] == s[0];
        let i = choose|i: int| 0 <= i < s.len() && s[i] == t[0];
        if j > 0 && i > 0 {
            lemma_lock_lt_transitive(s[0], t[0], s[0]);
            lemma_lock_lt_asymmetric(s[0], s[0]);
        }
        assert(s[0] == t[0]);
        let s1 = s.skip(1);
        let t1 = t.skip(1);
        assert forall|k: int| 0 <= k < s1.len() implies t1.contains(#[trigger] s1[k]) by {
            assert(t.contains(s[k + 1]));
            let m = choose|m: int| 0 <= m < t.len() && t[m] == s[k + 1];
            lemma_lock_lt_asymmetric(s[0], s[k + 1]);
            assert(t1[m - 1] == s1[k]);
        }
        assert forall|k: int| 0 <= k < t1.len() implies s1.contains(#[trigger] t1[k]) by {
            assert(s.contains(t[k + 1]));
            let m = choose|m: int| 0 <= m < s.len() && s[m] == t[k + 1];
            lemma_lock_lt_asymmetric(t[0], t[k + 1]);
            assert(s1[m - 1] == t1[k]);
        }
        assert forall|a: int, b: int| 0 <= a < b < s1.len() implies lock_lt(s1[a], s1[b]) by {
            assert(s1[a] == s[a + 1] && s1[b] == s[b + 1]);
        }
        assert forall|a: int, b: int| 0 <= a < b < t1.len() implies lock_lt(t1[a], t1[b]) by {
            assert(t1[a] == t[a + 1] && t1[b] == t[b + 1]);
        }
        lemma_locks_unique(s1, t1);
        assert(s =~= t) by {
            assert(s.len() == s1.len() + 1 && t.len() == t1.len() + 1);
            assert forall|k: int| 0 <= k < s.len() implies s[k] == t[k] by {
                if k > 0 {
                    assert(s1[k - 1] == s[k]);
                    assert(t1[k - 1] == t[k]);
                }
            }
        }
    } else {
        if s.len() > 0 {
            assert(t.contains(s[0]));
        }
        if t.len() > 0 {
            assert(s.contains(t[0]));
        }
        assert(s =~= t);
    }
}

/// Compares two lock units: by repository, then by pin.
pub fn order_locks(a: &LockUnit, b: &LockUnit) -> (r: Order)
    ensures
        r == Order::Before <==> lock_lt(a@, b@),
        r == Order::Same <==> a@ == b@,
        r == Order::After <==> lock_lt(b@, a@),
{
    match order_text(a.repo.as_str(), b.repo.as_str()) {
        Order::Before => {
            proof {
                lemma_lock_lt_asymmetric(a@, b@);
            }
            Order::Before
        },
        Order::After => {
            proof {
                lemma_lock_lt_asymmetric(b@, a@);
            }
            Order::After
        },
        Order::Same => {
            let r = match (&a.lock_type, &b.lock_type) {
                (LockType::Branch(x), LockType::Branch(y)) => order_text(x.as_str(), y.as_str()),
                (LockType::Branch(_), LockType::Commit(_)) => Order::Before,
                (LockType::Commit(_), LockType::Branch(_)) => Order::After,
                (LockType::Commit(x), LockType::Commit(y)) => order_text(x.as_str(), y.as_str()),
            };
            proof {
                if lock_lt(a@, b@) {
                    lemma_lock_lt_asymmetric(a@, b@);
                }
                if lock_lt(b@, a@) {
                    lemma_lock_lt_asymmetric(b@, a@);
                }
                if text_lt(a.repo@, b.repo@) {
                    lemma_text_lt_asymmetric(a.repo@, b.repo@);
                }
            }
            r
        },
    }
}

/// The lock units of `collected`, each once, in ascending order.
pub fn sorted_locks(collected: &[LockUnit]) -> (sorted: Vec<LockUnit>)
    ensures
        locks_ascend(lock_views(sorted@)),
        same_locks(lock_views(sorted@), lock_views(collected@)),
{
    let ghost given = lock_views(collected@);
    let mut sorted: Vec<LockUnit> = Vec::new();
    let mut i: usize = 0;
    while i < collected.len()
        invariant
            i <= collected.len(),
            given == lock_views(collected@),
            locks_ascend(lock_views(sorted@)),
            forall|k: int| 0 <= k < i ==> lock_views(sorted@).contains(#[trigger] given[k]),
            forall|q: int|
                0 <= q < sorted.len() ==> exists|k: int|
                    0 <= k < i && given[k] == #[trigger] lock_views(sorted@)[q],
        decreases collected.len() - i,
    {
        let lock = &collected[i];
        let ghost before = lock_views(sorted@);
        assert(given[i as int] == lock@);
        let mut p: usize = 0;
        let mut found = false;
        while p < sorted.len()
            invariant_except_break
                !found,
            invariant
                p <= sorted.len(),
                before == lock_views(sorted@),
                forall|q: int| 0 <= q < p ==> lock_lt(before[q], lock@),
            ensures
                p <= sorted.len(),
                before == lock_views(sorted@),
                forall|q: int| 0 <= q < p ==> lock_lt(before[q], lock@),
                found ==> p < sorted.len() && before[p as int] == lock@,
                !found && p < sorted.len() ==> lock_lt(lock@, before[p as int]),
            decreases sorted.len() - p,
        {
            assert(before[p as int] == sorted@[p as int]@);
            match order_locks(&sorted[p], lock) {
                Order::Before => {
                    p += 1;
                },
                Order::Same => {
                    found = true;
                    break ;
                },
                Order::After => {
                    break ;
                },
            }
        }
        if !found {
            sorted.insert(p, lock.duplicate());
            proof {
                let after = lock_views(sorted@);
                assert(after =~= before.insert(p as int, lock@));
                assert forall|a: int, b: int| 0 <= a < b < after.len() implies lock_lt(
                    after[a],
                    after[b],
                ) by {
                    if b == p {
                        assert(after[a] == before[a]);
                    } else if a == p {
                        assert(after[b] == before[b - 1]);
                        if b - 1 > p {
                            lemma_lock_lt_transitive(lock@, before[p as int], before[b - 1]);
                        }
                    } else {
                        let a0 = if a < p { a } else { a - 1 };
                        let b0 = if b < p { b } else { b - 1 };
                        assert(after[a] == before[a0]);
                        assert(after[b] == before[b0]);
                    }
                }
                assert forall|k: int| 0 <= k < i + 1 implies after.contains(
                    #[trigger] given[k],
                ) by {
                    if k < i {
                        let q = choose|q: int| 0 <= q < before.len() && before[q] == given[k];
                        let q1 = if q < p { q } else { q + 1 };
                        assert(after[q1] == given[k]);
                    } else {
                        assert(after[p as int] == given[k]);
                    }
                }
                assert forall|q: int| 0 <= q < after.len() implies exists|k: int|
                    0 <= k < i + 1 && given[k] == #[trigger] after[q] by {
                    if q == p {
                        assert(given[i as int] == after[q]);
                    } else {
                        let q0 = if q < p { q } else { q - 1 };
                        assert(after[q] == before[q0]);
                        let k = choose|k: int| 0 <= k < i && given[k] == before[q0];
                        assert(given[k] == after[q]);
                    }
                }
            }
        } else {
            proof {
                assert(before.contains(given[i as int]));
                assert forall|q: int| 0 <= q < before.len() implies exists|k: int|
                    0 <= k < i + 1 && given[k] == #[trigger] before[q] by {
                    let k = choose|k: int| 0 <= k < i && given[k] == before[q];
                    assert(given[k] == before[q]);
                }
            }
        }
        i += 1;
    }
    proof {
        let done = lock_views(sorted@);
        assert forall|q: int| 0 <= q < done.len() implies given.contains(#[trigger] done[q]) by {
            let k = choose|k: int| 0 <= k < collected.len() && given[k] == done[q];
            assert(given[k] == done[q]);
        }
    }
    sorted
}

/// The texts of `list` without those that stand at an earlier place too.
pub open spec fn without_repeats(list: Seq<Seq<char>>) -> Seq<Seq<char>>
    decreases list.len(),
{
    if list.len() == 0 {
        Seq::empty()
    } else {
        let rest = without_repeats(list.drop_last());
        if rest.contains(list.last()) {
            rest
        } else {
            rest.push(list.last())
        }
    }
}

/// What is left without the repeats holds every text of the list, and each
/// once.
pub proof fn lemma_without_repeats(list: Seq<Seq<char>>)
    ensures
        without_repeats(list).no_duplicates(),
        forall|t: Seq<char>| without_repeats(list).contains(t) <==> list.contains(t),
    decreases list.len(),
{
    if list.len() > 0 {
        let head = list.drop_last();
        let rest = without_repeats(head);
        let kept = without_repeats(list);
        lemma_without_repeats(head);
        assert forall|t: Seq<char>| kept.contains(t) <==> list.contains(t) by {
            assert(rest.contains(t) <==> head.contains(t));
            if kept.contains(t) {
                let i = choose|i: int| 0 <= i < kept.len() && kept[i] == t;
                if i < rest.len() {
                    assert(rest[i] == t);
                    assert(rest.contains(t));
                    let k = choose|k: int| 0 <= k < head.len() && head[k] == t;
                    assert(list[k] == t);
                } else {
                    assert(list[list.len() - 1] == t);
                }
            }
            if list.contains(t) {
                let k = choose|k: int| 0 <= k < list.len() && list[k] == t;
                if k < head.len() {
                    assert(head[k] == t);
                    assert(head.contains(t));
                    let i = choose|i: int| 0 <= i < rest.len() && rest[i] == t;
                    assert(kept[i] == t);
                } else if !rest.contains(t) {
                    assert(kept[kept.len() - 1] == t);
                }
            }
        }
    }
}

/// The flags of `options`, each once, in the order in which they first
/// stand.
pub fn distinct_options(options: &[String]) -> (kept: Vec<String>)
    ensures
        texts(kept@) == without_repeats(texts(options@)),
{
    let ghost given = texts(options@);
    let mut kept: Vec<String> = Vec::new();
    let mut i: usize = 0;
    proof {
        assert(given.take(0) =~= Seq::<Seq<char>>::empty());
        assert(texts(kept@) =~= without_repeats(given.take(0)));
    }
    while i < options.len()
        invariant
            i <= options.len(),
            given == texts(options@),
            texts(kept@) == without_repeats(given.take(i as int)),
        decreases options.len() - i,
    {
        let option = &options[i];
        let ghost before = texts(kept@);
        let mut found = false;
        let mut j: usize = 0;
        while j < kept.len()
            invariant_except_break
                !found,
            invariant
                j <= kept.len(),
                before == texts(kept@),
                forall|q: int| 0 <= q < j ==> before[q] != option@,
            ensures
                found == before.contains(option@),
            decreases kept.len() - j,
        {
            if kept[j] == *option {
                found = true;
                assert(before[j as int] == option@);
                break ;
            }
            j += 1;
        }
        proof {
            assert(given.take(i + 1).drop_last() =~= given.take(i as int));
            assert(given.take(i + 1).last() == option@);
        }
        if !found {
            proof {
                assert(texts(kept@.push(*option)) =~= before.push(option@));
            }
            kept.push(option.clone());
        }
        i += 1;
    }
    proof {
        assert(given.take(options.len() as int) =~= given);
    }
    kept
}

/// The lock artifact of a resolve: what was asked for at the root, the flags
/// that were switched on, each once, and the lock units that the walk
/// collected, each once and in order.
pub fn lock_file(
    root_deps: Vec<Dep>,
    root_options: Vec<String>,
    collected: &[LockUnit],
) -> (file: LockFile)
    ensures
        file.root_deps == root_deps,
        texts(file.root_options@) == without_repeats(texts(root_options@)),
        locks_ascend(lock_views(file.locks@)),
        same_locks(lock_views(file.locks@), lock_views(collected@)),
{
    LockFile {
        root_deps,
        root_options: distinct_options(&root_options),
        locks: sorted_locks(collected),
    }
}

} // verus!
