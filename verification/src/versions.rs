//! Tagged versions of a repository, and the choice of the newest one that a
//! requirement admits. What a version is, how two versions compare and what
//! a requirement admits is asked of the `semver` crate.

use vstd::prelude::*;

verus! {

/// `text` is a version as `semver::Version::parse` accepts it.
pub uninterp spec fn semver_valid(text: Seq<char>) -> bool;

/// Both texts are versions, and `semver::Version` orders the first strictly
/// before the second.
pub uninterp spec fn semver_less(a: Seq<char>, b: Seq<char>) -> bool;

/// `range` is a requirement as `semver::VersionReq::parse` accepts it,
/// `version` is a version, and `semver::VersionReq::matches` holds of them.
pub uninterp spec fn semver_matches(range: Seq<char>, version: Seq<char>) -> bool;

/// `semver::Version::parse`: whether the text is a version.
#[verifier::external_body]
fn is_version(text: &str) -> (valid: bool)
    ensures
        valid == semver_valid(text@),
{
    semver::Version::parse(text).is_ok()
}

/// `<` of `semver::Version`, on two texts that are versions. The order is a
/// strict total order: if one version is less than another, the other is not
/// less than the one; and if a first is not less than a second, nor the
/// second less than a third, the first is not less than the third.
#[verifier::external_body]
fn version_less(a: &str, b: &str) -> (less: bool)
    requires
        semver_valid(a@),
        semver_valid(b@),
    ensures
        less == semver_less(a@, b@),
        less ==> !semver_less(b@, a@),
        !less ==> forall|c: Seq<char>|
            semver_valid(c) && !semver_less(b@, c) ==> !#[trigger] semver_less(a@, c),
{
    match (semver::Version::parse(a), semver::Version::parse(b)) {
        (Ok(x), Ok(y)) => x < y,
        _ => false,
    }
}

/// `semver::VersionReq::matches`, on the texts of a requirement and of a
/// version: false where either text cannot be parsed.
#[verifier::external_body]
fn version_matches(range: &str, version: &str) -> (admitted: bool)
    ensures
        admitted == semver_matches(range@, version@),
{
    match (semver::VersionReq::parse(range), semver::Version::parse(version)) {
        (Ok(req), Ok(v)) => req.matches(&v),
        _ => false,
    }
}

/// A tag of a repository that names a version, with the commit it stands on.
#[derive(Clone, Debug, PartialEq, Eq)]
pub struct VersionTag {
    pub version: String,
    pub commit: String,
}

/// The value of a [`VersionTag`].
pub struct TagView {
    pub version: Seq<char>,
    pub commit: Seq<char>,
}

impl View for VersionTag {
    type V = TagView;

    open spec fn view(&self) -> TagView {
        TagView { version: self.version@, commit: self.commit@ }
    }
}

/// The values of a sequence of tags.
pub open spec fn tag_views(tags: Seq<VersionTag>) -> Seq<TagView> {
    Seq::new(tags.len(), |i: int| tags[i]@)
}

/// The tags whose text is a version, in their order.
pub open spec fn valid_tags(tags: Seq<TagView>) -> Seq<TagView> {
    tags.filter(|t: TagView| semver_valid(t.version))
}

/// Every tag names a version.
pub open spec fn all_valid(tags: Seq<TagView>) -> bool {
    forall|i: int| 0 <= i < tags.len() ==> semver_valid(#[trigger] tags[i].version)
}

/// No tag names a lesser version than a tag before it.
pub open spec fn ascend(tags: Seq<TagView>) -> bool {
    forall|i: int, j: int|
        0 <= i < j < tags.len() ==> !semver_less(
            #[trigger] tags[j].version,
            #[trigger] tags[i].version,
        )
}

/// `sorted` holds the tags of `listed` that name a version, each as often as
/// `listed` holds it, in ascending order of their versions.
pub open spec fn sorted_from(sorted: Seq<TagView>, listed: Seq<TagView>) -> bool {
    &&& all_valid(sorted)
    &&& ascend(sorted)
    &&& sorted.to_multiset() == valid_tags(listed).to_multiset()
}

/// Where a tag of the version `version` goes into ascending tags: behind the
/// last tag whose version is not greater.
pub open spec fn slot(sorted: Seq<TagView>, version: Seq<char>) -> int
    decreases sorted.len(),
{
    if sorted.len() > 0 && semver_less(version, sorted.last().version) {
        slot(sorted.drop_last(), version)
    } else {
        sorted.len() as int
    }
}

/// The tags of `listed` that name a version, sorted by version, the least
/// first; tags of equal versions keep the order in which they were listed.
pub open spec fn sorted_tags(listed: Seq<TagView>) -> Seq<TagView>
    decreases listed.len(),
{
    if listed.len() == 0 {
        Seq::empty()
    } else {
        let rest = sorted_tags(listed.drop_last());
        let tag = listed.last();
        if semver_valid(tag.version) {
            rest.insert(slot(rest, tag.version), tag)
        } else {
            rest
        }
    }
}

/// The tag at `k` is admitted by `range`, and no tag after it is.
pub open spec fn picks(tags: Seq<TagView>, range: Seq<char>, k: int) -> bool {
    &&& 0 <= k < tags.len()
    &&& semver_matches(range, tags[k].version)
    &&& forall|j: int| k < j < tags.len() ==> !semver_matches(range, #[trigger] tags[j].version)
}

/// The place of the last tag that `range` admits, if it admits one.
pub open spec fn pick(tags: Seq<TagView>, range: Seq<char>) -> Option<int> {
    if exists|k: int| picks(tags, range, k) {
        Some(choose|k: int| picks(tags, range, k))
    } else {
        None
    }
}

/// Keeps the tags that name a version and sorts them by version, the least
/// first.
pub fn sort_tags(listed: &[VersionTag]) -> (sorted: Vec<VersionTag>)
    ensures
        tag_views(sorted@) == sorted_tags(tag_views(listed@)),
        sorted_from(tag_views(sorted@), tag_views(listed@)),
{

    let ghost given = tag_views(listed@);
    let ghost keep = |t: TagView| semver_valid(t.version);
    let mut sorted: Vec<VersionTag> = Vec::new();
    let mut i: usize = 0;
    proof {
        assert(given.take(0) =~= Seq::<TagView>::empty());
        assert(tag_views(sorted@) =~= Seq::<TagView>::empty());
        assert(given.take(0).filter(keep) =~= Seq::<TagView>::empty());
    }
    while i < listed.len()
        invariant
            i <= listed.len(),
            given == tag_views(listed@),
            keep == |t: TagView| semver_valid(t.version),
            all_valid(tag_views(sorted@)),
            ascend(tag_views(sorted@)),
            tag_views(sorted@).to_multiset() == given.take(i as int).filter(keep).to_multiset(),
            tag_views(sorted@) == sorted_tags(given.take(i as int)),
        decreases listed.len() - i,
    {
        let tag = &listed[i];
        let ghost before = tag_views(sorted@);
        proof {
            assert(given.take(i + 1) =~= given.take(i as int).push(given[i as int]));
            assert(given[i as int] == tag@);
            assert(given.take(i + 1).drop_last() =~= given.take(i as int));
            assert(given.take(i + 1).last() == tag@);
        }
        if is_version(tag.version.as_str()) {
            let mut p: usize = sorted.len();
            assert(before.take(p as int) =~= before);
            while p > 0
                invariant
                    p <= sorted.len(),
                    before == tag_views(sorted@),
                    all_valid(before),
                    ascend(before),
                    semver_valid(tag.version@),
                    forall|q: int|
                        p <= q < before.len() ==> !semver_less(
                            #[trigger] before[q].version,
                            tag.version@,
                        ),
                    slot(before, tag.version@) == slot(before.take(p as int), tag.version@),
                ensures
                    p <= sorted.len(),
                    forall|k: int|
                        0 <= k < p ==> !semver_less(tag.version@, #[trigger] before[k].version),
                    p == slot(before, tag.version@),
                decreases p,
            {
                assert(before[p - 1] == sorted@[p - 1]@);
                assert(semver_valid(before[p - 1].version));
                assert(before.take(p as int).last() == before[p - 1]);
                assert(before.take(p as int).drop_last() =~= before.take(p - 1));
                if version_less(tag.version.as_str(), sorted[p - 1].version.as_str()) {
                    p -= 1;
                } else {
                    proof {
                        assert forall|k: int| 0 <= k < p implies !semver_less(
                            tag.version@,
                            #[trigger] before[k].version,
                        ) by {
                            if k < p - 1 {
                                assert(!semver_less(before[p - 1].version, before[k].version));
                            }
                        }
                    }
                    break ;
                }
            }
            sorted.insert(
                p,
                VersionTag { version: tag.version.clone(), commit: tag.commit.clone() },
            );
            proof {
                let after = tag_views(sorted@);
                assert(after =~= before.insert(p as int, tag@));
                assert forall|a: int, b: int| 0 <= a < b < after.len() implies !semver_less(
                    #[trigger] after[b].version,
                    #[trigger] after[a].version,
                ) by {
                    if b == p {
                        assert(after[a] == before[a]);
                    } else if a == p {
                        assert(after[b] == before[b - 1]);
                    } else {
                        let a0 = if a < p { a } else { a - 1 };
                        let b0 = if b < p { b } else { b - 1 };
                        assert(after[a] == before[a0]);
                        assert(after[b] == before[b0]);
                    }
                }
                assert forall|k: int| 0 <= k < after.len() implies semver_valid(
                    #[trigger] after[k].version,
                ) by {
                    if k != p {
                        let k0 = if k < p { k } else { k - 1 };
                        assert(after[k] == before[k0]);
                    }
                }
                assert(keep(tag@));
                let seen = given.take(i as int);
                seen.lemma_filter_push(tag@, keep);
                assert(seen.push(tag@).filter(keep) == seen.filter(keep).push(tag@));
                vstd::seq_lib::to_multiset_insert(before, p as int, tag@);
                vstd::seq_lib::to_multiset_build(seen.filter(keep), tag@);
                assert(after.to_multiset() == before.to_multiset().insert(tag@));
                let kept = seen.filter(keep);
                assert(kept.push(tag@).to_multiset() == kept.to_multiset().insert(tag@));
            }
        } else {
            proof {
                assert(!keep(tag@));
                let seen = given.take(i as int);
                seen.lemma_filter_push(tag@, keep);
                assert(seen.push(tag@).filter(keep) == seen.filter(keep));
            }
        }
        i += 1;
    }
    proof {
        assert(given.take(listed.len() as int) =~= given);
    }
    sorted
}

/// The place of the last tag that `range` admits. In ascending tags no other
/// admitted tag names a greater version than the one at that place.
pub fn best_match(tags: &[VersionTag], range: &str) -> (found: Option<usize>)
    ensures
        match found {
            Some(k) => picks(tag_views(tags@), range@, k as int),
            None => forall|j: int|
                0 <= j < tags.len() ==> !semver_matches(
                    range@,
                    #[trigger] tag_views(tags@)[j].version,
                ),
        },
        found == match pick(tag_views(tags@), range@) {
            Some(k) => Some(k as usize),
            None => None,
        },
        ascend(tag_views(tags@)) ==> forall|j: int|
            found is Some && 0 <= j < tags.len() && j != found->0 && semver_matches(
                range@,
                #[trigger] tag_views(tags@)[j].version,
            ) ==> !semver_less(
                tag_views(tags@)[found->0 as int].version,
                tag_views(tags@)[j].version,
            ),
{
    let ghost views = tag_views(tags@);
    let mut p: usize = tags.len();
    while p > 0
        invariant
            p <= tags.len(),
            views == tag_views(tags@),
            forall|j: int|
                p <= j < tags.len() ==> !semver_matches(range@, #[trigger] views[j].version),
        decreases p,
    {
        assert(views[p - 1] == tags@[p - 1]@);
        if version_matches(range, tags[p - 1].version.as_str()) {
            proof {
                let k = (p - 1) as int;
                assert(picks(views, range@, k));
                let chosen = choose|k: int| picks(views, range@, k);
                assert(chosen == k) by {
                    if chosen < k {
                        assert(!semver_matches(range@, views[k].version));
                    }
                    if k < chosen {
                        assert(!semver_matches(range@, views[chosen].version));
                    }
                }
            }
            return Some(p - 1);
        }
        p -= 1;
    }
    proof {
        if exists|k: int| picks(views, range@, k) {
            let k = choose|k: int| picks(views, range@, k);
            assert(!semver_matches(range@, views[k].version));
        }
    }
    None
}

} // verus!
