//! Build units: one manifest directory with the names under which it refers
//! to the directories of its dependencies.

use vstd::prelude::*;
use crate::error::{ErrorView, ResolveError};
use crate::text::{
    lemma_text_lt_asymmetric,
    lemma_text_lt_total,
    lemma_text_lt_transitive,
    order_text,
    text_lt,
    Order,
};

verus! {

/// A node of the build graph. Two build units are the same node exactly when
/// they hold the same directory and the same names for the same directories.
#[derive(Clone, Debug, PartialEq, Eq, PartialOrd, Ord, Hash)]
pub struct BuildUnit {
    dir: String,
    name_map: Vec<(String, String)>,
}

/// The value of a [`BuildUnit`]: its directory, and its names with their
/// directories in the order of the names.
pub struct UnitView {
    pub dir: Seq<char>,
    pub names: Seq<(Seq<char>, Seq<char>)>,
}

/// The values of a sequence of pairs of strings.
pub open spec fn pairs(s: Seq<(String, String)>) -> Seq<(Seq<char>, Seq<char>)> {
    Seq::new(s.len(), |i: int| (s[i].0@, s[i].1@))
}

/// The names stand in strictly ascending order, so none stands twice.
pub open spec fn ascending(names: Seq<(Seq<char>, Seq<char>)>) -> bool {
    forall|i: int, j: int| 0 <= i < j < names.len() ==> text_lt(names[i].0, names[j].0)
}

/// The name at `j` stands at an earlier place too.
pub open spec fn repeats_at(names: Seq<(Seq<char>, Seq<char>)>, j: int) -> bool {
    0 <= j < names.len() && exists|i: int| 0 <= i < j && names[i].0 == names[j].0
}

/// The name at `j` is the first that stands at an earlier place too.
pub open spec fn first_repeat(names: Seq<(Seq<char>, Seq<char>)>, j: int) -> bool {
    repeats_at(names, j) && forall|k: int| 0 <= k < j ==> !repeats_at(names, k)
}

/// Some name stands twice.
pub open spec fn has_repeat(names: Seq<(Seq<char>, Seq<char>)>) -> bool {
    exists|j: int| repeats_at(names, j)
}

/// `sorted` holds the pairs of `names`, each once.
pub open spec fn same_pairs(
    sorted: Seq<(Seq<char>, Seq<char>)>,
    names: Seq<(Seq<char>, Seq<char>)>,
) -> bool {
    &&& sorted.len() == names.len()
    &&& forall|i: int| 0 <= i < names.len() ==> sorted.contains(#[trigger] names[i])
    &&& forall|i: int| 0 <= i < sorted.len() ==> names.contains(#[trigger] sorted[i])
}

/// The pairs of `names` in the ascending order of their names. It is
/// determined where no name stands twice.
pub open spec fn sorted_names(names: Seq<(Seq<char>, Seq<char>)>) -> Seq<(Seq<char>, Seq<char>)> {
    choose|sorted: Seq<(Seq<char>, Seq<char>)>| ascending(sorted) && same_pairs(sorted, names)
}

/// The value of the build unit of the manifest in `dir` that names its
/// dependencies as `names` says.
pub open spec fn unit_of(dir: Seq<char>, names: Seq<(Seq<char>, Seq<char>)>) -> UnitView {
    UnitView { dir, names: sorted_names(names) }
}

/// The place of the first name that repeats an earlier one.
pub open spec fn first_repeat_at(names: Seq<(Seq<char>, Seq<char>)>) -> int {
    choose|j: int| first_repeat(names, j)
}

/// Two ascending sequences that hold the same pairs are equal: the order of
/// the names leaves no choice.
pub proof fn lemma_ascending_unique(
    s: Seq<(Seq<char>, Seq<char>)>,
    t: Seq<(Seq<char>, Seq<char>)>,
)
    requires
        ascending(s),
        ascending(t),
        s.len() == t.len(),
        forall|i: int| 0 <= i < s.len() ==> t.contains(#[trigger] s[i]),
        forall|i: int| 0 <= i < t.len() ==> s.contains(#[trigger] t[i]),
    ensures
        s == t,
    decreases s.len(),
{
    if s.len() > 0 {
        assert(t.contains(s[0]));
        assert(s.contains(t[0]));
        let j = choose|j: int| 0 <= j < t.len() && t[j] == s[0];
        let i = choose|i: int| 0 <= i < s.len() && s[i] == t[0];
        if j > 0 && i > 0 {
            lemma_text_lt_transitive(s[0].0, t[0].0, s[0].0);
            lemma_text_lt_asymmetric(s[0].0, s[0].0);
        }
        assert(s[0] == t[0]);
        let s1 = s.skip(1);
        let t1 = t.skip(1);
        assert forall|k: int| 0 <= k < s1.len() implies t1.contains(#[trigger] s1[k]) by {
            assert(t.contains(s[k + 1]));
            let m = choose|m: int| 0 <= m < t.len() && t[m] == s[k + 1];
            lemma_text_lt_asymmetric(s[0].0, s[k + 1].0);
            assert(t1[m - 1] == s1[k]);
        }
        assert forall|k: int| 0 <= k < t1.len() implies s1.contains(#[trigger] t1[k]) by {
            assert(s.contains(t[k + 1]));
            let m = choose|m: int| 0 <= m < s.len() && s[m] == t[k + 1];
            lemma_text_lt_asymmetric(t[0].0, t[k + 1].0);
            assert(s1[m - 1] == t1[k]);
        }
        assert forall|a: int, b: int| 0 <= a < b < s1.len() implies text_lt(s1[a].0, s1[b].0) by {
            assert(s1[a] == s[a + 1] && s1[b] == s[b + 1]);
        }
        assert forall|a: int, b: int| 0 <= a < b < t1.len() implies text_lt(t1[a].0, t1[b].0) by {
            assert(t1[a] == t[a + 1] && t1[b] == t[b + 1]);
        }
        lemma_ascending_unique(s1, t1);
        assert(s =~= t) by {
            assert forall|k: int| 0 <= k < s.len() implies s[k] == t[k] by {
                if k > 0 {
                    assert(s1[k - 1] == s[k]);
                    assert(t1[k - 1] == t[k]);
                }
            }
        }
    } else {
        assert(s =~= t);
    }
}

/// Where a name that ascending pairs do not hold goes: behind the names
/// that come before it, and before those that come after it.
proof fn lemma_slot(sorted: Seq<(Seq<char>, Seq<char>)>, name: Seq<char>) -> (p: int)
    requires
        ascending(sorted),
        forall|q: int| 0 <= q < sorted.len() ==> sorted[q].0 != name,
    ensures
        0 <= p <= sorted.len(),
        forall|q: int| 0 <= q < p ==> text_lt(sorted[q].0, name),
        forall|q: int| p <= q < sorted.len() ==> text_lt(name, sorted[q].0),
    decreases sorted.len(),
{
    if sorted.len() == 0 {
        0
    } else {
        let last = sorted.len() - 1;
        lemma_text_lt_total(sorted[last].0, name);
        if text_lt(sorted[last].0, name) {
            assert forall|q: int| 0 <= q < sorted.len() implies text_lt(sorted[q].0, name) by {
                if q < last {
                    lemma_text_lt_transitive(sorted[q].0, sorted[last].0, name);
                }
            }
            sorted.len() as int
        } else {
            let head = sorted.drop_last();
            assert forall|a: int, b: int| 0 <= a < b < head.len() implies text_lt(
                head[a].0,
                head[b].0,
            ) by {
                assert(head[a] == sorted[a] && head[b] == sorted[b]);
            }
            assert forall|q: int| 0 <= q < head.len() implies head[q].0 != name by {
                assert(head[q] == sorted[q]);
            }
            let p = lemma_slot(head, name);
            assert forall|q: int| 0 <= q < p implies text_lt(sorted[q].0, name) by {
                assert(head[q] == sorted[q]);
            }
            assert forall|q: int| p <= q < sorted.len() implies text_lt(name, sorted[q].0) by {
                if q < last {
                    assert(head[q] == sorted[q]);
                }
            }
            p
        }
    }
}

/// Names of which none stands twice can be sorted: the sorted names are in
/// ascending order and hold the same pairs.
pub proof fn lemma_sorted_names_exist(names: Seq<(Seq<char>, Seq<char>)>)
    requires
        !has_repeat(names),
    ensures
        ascending(sorted_names(names)),
        same_pairs(sorted_names(names), names),
    decreases names.len(),
{
    if names.len() == 0 {
        let empty = Seq::<(Seq<char>, Seq<char>)>::empty();
        assert(ascending(empty) && same_pairs(empty, names));
    } else {
        let head = names.drop_last();
        let fresh = names.last();
        let n = names.len() - 1;
        assert(!has_repeat(head)) by {
            if has_repeat(head) {
                let j = choose|j: int| repeats_at(head, j);
                let i = choose|i: int| 0 <= i < j && head[i].0 == head[j].0;
                assert(names[i].0 == names[j].0);
                assert(repeats_at(names, j));
            }
        }
        lemma_sorted_names_exist(head);
        let before = sorted_names(head);
        assert forall|q: int| 0 <= q < before.len() implies before[q].0 != fresh.0 by {
            assert(head.contains(before[q]));
            let k = choose|k: int| 0 <= k < head.len() && head[k] == before[q];
            if before[q].0 == fresh.0 {
                assert(names[k].0 == names[n].0);
                assert(repeats_at(names, n));
            }
        }
        let p = lemma_slot(before, fresh.0);
        let after = before.insert(p, fresh);
        assert forall|a: int, b: int| 0 <= a < b < after.len() implies text_lt(
            after[a].0,
            after[b].0,
        ) by {
            let a0 = if a < p { a } else { a - 1 };
            let b0 = if b < p { b } else { b - 1 };
            if b == p {
                assert(after[a] == before[a]);
            } else if a == p {
                assert(after[b] == before[b0]);
            } else {
                assert(after[a] == before[a0]);
                assert(after[b] == before[b0]);
            }
        }
        assert forall|k: int| 0 <= k < names.len() implies after.contains(#[trigger] names[k]) by {
            if k < n {
                assert(head[k] == names[k]);
                assert(before.contains(head[k]));
                let q = choose|q: int| 0 <= q < before.len() && before[q] == names[k];
                let q1 = if q < p { q } else { q + 1 };
                assert(after[q1] == names[k]);
            } else {
                assert(after[p] == names[k]);
            }
        }
        assert forall|q: int| 0 <= q < after.len() implies names.contains(#[trigger] after[q]) by {
            if q == p {
                assert(names[n] == after[q]);
            } else {
                let q0 = if q < p { q } else { q - 1 };
                assert(after[q] == before[q0]);
                assert(head.contains(before[q0]));
                let k = choose|k: int| 0 <= k < head.len() && head[k] == before[q0];
                assert(names[k] == after[q]);
            }
        }
        assert(ascending(after) && same_pairs(after, names));
    }
}

/// Ascending pairs that hold what `names` holds are the sorted names.
pub proof fn lemma_sorted_names(
    sorted: Seq<(Seq<char>, Seq<char>)>,
    names: Seq<(Seq<char>, Seq<char>)>,
)
    requires
        ascending(sorted),
        same_pairs(sorted, names),
    ensures
        sorted == sorted_names(names),
{
    let chosen = sorted_names(names);
    assert(ascending(chosen) && same_pairs(chosen, names));
    assert forall|i: int| 0 <= i < sorted.len() implies chosen.contains(#[trigger] sorted[i]) by {
        assert(names.contains(sorted[i]));
        let k = choose|k: int| 0 <= k < names.len() && names[k] == sorted[i];
        assert(chosen.contains(names[k]));
    }
    assert forall|i: int| 0 <= i < chosen.len() implies sorted.contains(#[trigger] chosen[i]) by {
        assert(names.contains(chosen[i]));
        let k = choose|k: int| 0 <= k < names.len() && names[k] == chosen[i];
        assert(sorted.contains(names[k]));
    }
    lemma_ascending_unique(sorted, chosen);
}

/// Only one name is the first to repeat an earlier one.
pub proof fn lemma_first_repeat(names: Seq<(Seq<char>, Seq<char>)>, j: int)
    requires
        first_repeat(names, j),
    ensures
        j == first_repeat_at(names),
        has_repeat(names),
{
    let k = first_repeat_at(names);
    assert(first_repeat(names, k));
}

impl View for BuildUnit {
    type V = UnitView;

    closed spec fn view(&self) -> UnitView {
        UnitView { dir: self.dir@, names: pairs(self.name_map@) }
    }
}

impl BuildUnit {
    /// The invariant of a build unit: its names are in ascending order.
    pub open spec fn wf(&self) -> bool {
        ascending(self@.names)
    }

    /// The build unit of the manifest in `dir` that names its dependencies as
    /// `names` says, each pair a name and the directory it stands for.
    ///
    /// Fails where a name stands twice, and reports the first one that
    /// repeats an earlier one.
    pub fn new(dir: String, names: &[(String, String)]) -> (r: Result<BuildUnit, ResolveError>)
        ensures
            match r {
                Ok(unit) => {
                    &&& !has_repeat(pairs(names@))
                    &&& unit.wf()
                    &&& same_pairs(unit@.names, pairs(names@))
                    &&& unit@ == unit_of(dir@, pairs(names@))
                },
                Err(e) => has_repeat(pairs(names@)) && e@ == (ErrorView::NameCollision {
                    dir: dir@,
                    name: pairs(names@)[first_repeat_at(pairs(names@))].0,
                }),
            },
    {
        let ghost given = pairs(names@);
        let mut sorted: Vec<(String, String)> = Vec::new();
        let mut i: usize = 0;
        while i < names.len()
            invariant
                i <= names.len(),
                given == pairs(names@),
                ascending(pairs(sorted@)),
                sorted.len() == i,
                forall|k: int| 0 <= k < i ==> pairs(sorted@).contains(#[trigger] given[k]),
                forall|q: int|
                    0 <= q < sorted.len() ==> exists|k: int|
                        0 <= k < i && given[k] == #[trigger] pairs(sorted@)[q],
                forall|k: int| 0 <= k < i ==> !repeats_at(given, k),
            decreases names.len() - i,
        {
            let name = &names[i].0;
            let ghost before = pairs(sorted@);
            let mut p: usize = 0;
            let mut found = false;
            while p < sorted.len()
                invariant_except_break
                    !found,
                invariant
                    p <= sorted.len(),
                    before == pairs(sorted@),
                    forall|q: int| 0 <= q < p ==> text_lt(before[q].0, name@),
                ensures
                    p <= sorted.len(),
                    before == pairs(sorted@),
                    forall|q: int| 0 <= q < p ==> text_lt(before[q].0, name@),
                    found ==> p < sorted.len() && before[p as int].0 == name@,
                    !found && p < sorted.len() ==> text_lt(name@, before[p as int].0),
                decreases sorted.len() - p,
            {
                match order_text(sorted[p].0.as_str(), name.as_str()) {
                    Order::Before => {
                        assert(before[p as int].0 == sorted@[p as int].0@);
                        p += 1;
                    },
                    Order::Same => {
                        assert(before[p as int].0 == sorted@[p as int].0@);
                        found = true;
                        break ;
                    },
                    Order::After => {
                        assert(before[p as int].0 == sorted@[p as int].0@);
                        break ;
                    },
                }
            }
            if found {
                proof {
                    let k = choose|k: int| 0 <= k < i && given[k] == before[p as int];
                    assert(given[k].0 == given[i as int].0);
                    assert(repeats_at(given, i as int));
                    assert(first_repeat(given, i as int));
                    lemma_first_repeat(given, i as int);
                }
                return Err(ResolveError::NameCollision { dir, name: name.clone() });
            }
            proof {
                assert forall|q: int| 0 <= q < before.len() implies before[q].0 != name@ by {
                    if q < p {
                        lemma_text_lt_asymmetric(before[q].0, name@);
                    } else {
                        if q > p {
                            lemma_text_lt_transitive(name@, before[p as int].0, before[q].0);
                        }
                        lemma_text_lt_asymmetric(name@, before[q].0);
                    }
                }
                if repeats_at(given, i as int) {
                    let k = choose|k: int| 0 <= k < i && given[k].0 == given[i as int].0;
                    assert(before.contains(given[k]));
                    let q = choose|q: int| 0 <= q < before.len() && before[q] == given[k];
                    assert(before[q].0 == name@);
                }
            }
            sorted.insert(p, (name.clone(), names[i].1.clone()));
            proof {
                let after = pairs(sorted@);
                let fresh = given[i as int];
                assert(after =~= before.insert(p as int, fresh));
                assert forall|a: int, b: int| 0 <= a < b < after.len() implies text_lt(
                    after[a].0,
                    after[b].0,
                ) by {
                    if b == p {
                        assert(after[a] == before[a]);
                    } else if a == p {
                        assert(after[b] == before[b - 1]);
                        if b - 1 > p {
                            lemma_text_lt_transitive(name@, before[p as int].0, before[b - 1].0);
                        }
                    } else {
                        let a0 = if a < p { a } else { a - 1 };
                        let b0 = if b < p { b } else { b - 1 };
                        assert(after[a] == before[a0]);
                        assert(after[b] == before[b0]);
                    }
                }
                assert forall|k: int| 0 <= k < i + 1 implies after.contains(
                    #[trigger] given[k],
                ) by {
                    if k < i {
                        let q = choose|q: int| 0 <= q < before.len() && before[q] == given[k];
                        let q1 = if q < p { q } else { q + 1 };
                        assert(after[q1] == given[k]);
                    } else {
                        assert(after[p as int] == given[k]);
                    }
                }
                assert forall|q: int| 0 <= q < after.len() implies exists|k: int|
                    0 <= k < i + 1 && given[k] == #[trigger] after[q] by {
                    if q == p {
                        assert(given[i as int] == after[q]);
                    } else {
                        let q0 = if q < p { q } else { q - 1 };
                        assert(after[q] == before[q0]);
                        let k = choose|k: int| 0 <= k < i && given[k] == before[q0];
                        assert(given[k] == after[q]);
                    }
                }
            }
            i += 1;
        }
        proof {
            let done = pairs(sorted@);
            assert forall|q: int| 0 <= q < done.len() implies given.contains(
                #[trigger] done[q],
            ) by {
                let k = choose|k: int| 0 <= k < names.len() && given[k] == done[q];
                assert(given[k] == done[q]);
            }
            if has_repeat(given) {
                let j = choose|j: int| repeats_at(given, j);
                assert(!repeats_at(given, j));
            }
            lemma_sorted_names(done, given);
        }
        Ok(BuildUnit { dir, name_map: sorted })
    }

    /// The directory of the manifest.
    pub fn dir(&self) -> (r: &String)
        ensures
            r@ == self@.dir,
    {
        &self.dir
    }

    /// The names, in ascending order, each with the directory it stands for.
    pub fn name_map(&self) -> (r: &Vec<(String, String)>)
        ensures
            pairs(r@) == self@.names,
    {
        &self.name_map
    }
}

} // verus!
