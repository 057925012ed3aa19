use crack::{best_match, parse_tag_line, resolve, sort_tags, version_tags};
use crack::{Dep, DepType, LockType, LockUnit, ResolveError, VersionTag};
use semver::Version;

fn tag(version: &str, commit: &str) -> VersionTag {
    VersionTag { version: version.to_string(), commit: commit.to_string() }
}

fn declared(dep_type: Option<DepType>) -> Dep {
    Dep { name: None, repo: "repo".to_string(), dep_type, options: None, option_name: None }
}

#[test]
fn tags_t_1() {
    let listing = "e636a1ec3659dee39ae935837fb13eea7e7d8faf\trefs/tags/v0.3.5\n\
                   a4bf57c513ebc8ed89cc546e8c120c9321357632\trefs/tags/v2.0.1\n\
                   909896f5646b7fd9f058dcd21961b8d5599dec3b\trefs/tags/v1.3.5\n";
    let tags: Vec<(Version, String)> = version_tags(listing)
        .into_iter()
        .map(|t| (Version::parse(&t.version).unwrap(), t.commit))
        .collect();
    assert_eq!(
        tags,
        [
            (Version::new(0, 3, 5), "e636a1ec3659dee39ae935837fb13eea7e7d8faf".to_string()),
            (Version::new(1, 3, 5), "909896f5646b7fd9f058dcd21961b8d5599dec3b".to_string()),
            (Version::new(2, 0, 1), "a4bf57c513ebc8ed89cc546e8c120c9321357632".to_string())
        ]
    );
}

#[test]
fn listing_skips_what_is_no_version() {
    let listing = "aaa\trefs/tags/v1.0.0\r\n\
                   bbb\trefs/tags/v1.0.0^{}\n\
                   ccc\trefs/tags/release\n\
                   \n\
                   no_white_space\n\
                   ddd refs/tags/v0.1.0-dev\n\
                   eee\trefs/tags/v0.1.0-alpha";
    assert_eq!(version_tags(listing), vec![tag("0.1.0-alpha", "eee"), tag("1.0.0", "aaa")]);
    assert_eq!(version_tags(""), vec![]);
    assert_eq!(version_tags("\n\n"), vec![]);
}

#[test]
fn line_gives_commit_and_version() {
    let line = |s: &str| parse_tag_line(&s.chars().collect::<Vec<char>>());
    assert_eq!(line("abc\trefs/tags/v1.2.3"), Some(tag("1.2.3", "abc")));
    assert_eq!(line("x-abc refs/v/tags/v1"), Some(tag("1", "abc")));
    assert_eq!(line(" v"), Some(tag("", "")));
    assert_eq!(line("abc\tv"), Some(tag("", "abc")));
    assert_eq!(line("vvv 1.2.3"), None);
    assert_eq!(line("abcv1.2.3"), None);
    assert_eq!(line("abc\u{a0}refs v2 x"), Some(tag("2 x", "abc")));
    assert_eq!(line(""), None);
}

#[test]
fn sort_is_by_version_not_by_text() {
    let listed = vec![
        tag("1.19.0", "a"),
        tag("not a version", "b"),
        tag("1.5.0", "c"),
        tag("1.5.0-pre.12", "d"),
        tag("1.5.0-pre.8", "e"),
        tag("0.0.1", "f"),
        tag("1.5.0", "g"),
        tag("01.0.0", "h"),
    ];
    assert_eq!(
        sort_tags(&listed),
        vec![
            tag("0.0.1", "f"),
            tag("1.5.0-pre.8", "e"),
            tag("1.5.0-pre.12", "d"),
            tag("1.5.0", "c"),
            tag("1.5.0", "g"),
            tag("1.19.0", "a"),
        ]
    );
    assert_eq!(sort_tags(&vec![]), vec![]);
}

#[test]
fn version_resolution() {
    let tags = sort_tags(&vec![tag("0.3.5", "c1"), tag("1.3.5", "c2"), tag("2.0.1", "c3")]);
    assert_eq!(best_match(&tags, "^1.0.0"), Some(1));
    assert_eq!(best_match(&tags, "=3.0.0"), None);
    assert_eq!(
        resolve(&declared(Some(DepType::Version("^1.0.0".to_string()))), &tags),
        Ok(LockUnit { repo: "repo".to_string(), lock_type: LockType::Commit("c2".to_string()) })
    );
    assert_eq!(
        resolve(&declared(Some(DepType::Version("=3.0.0".to_string()))), &tags),
        Err(ResolveError::NoMatchingVersion {
            repo: "repo".to_string(),
            range: "=3.0.0".to_string()
        })
    );
}

#[test]
fn best_match_is_the_last_that_is_admitted() {
    let tags = sort_tags(&vec![
        tag("2.0.1", "c3"),
        tag("1.3.5", "c2"),
        tag("0.3.5", "c1"),
        tag("1.9.0", "c4"),
    ]);
    assert_eq!(best_match(&tags, "*"), Some(3));
    assert_eq!(best_match(&tags, "1"), Some(2));
    assert_eq!(best_match(&tags, "<1.9"), Some(1));
    assert_eq!(best_match(&tags, "<1"), Some(0));
    assert_eq!(best_match(&tags, "<0.1"), None);
    assert_eq!(best_match(&tags, "not a requirement"), None);
    assert_eq!(best_match(&vec![], "*"), None);
}

#[test]
fn resolve_keeps_branches_and_commits() {
    let none = vec![];
    assert_eq!(
        resolve(&declared(None), &none),
        Ok(LockUnit {
            repo: "repo".to_string(),
            lock_type: LockType::Branch("default".to_string())
        })
    );
    assert_eq!(
        resolve(&declared(Some(DepType::Branch("main".to_string()))), &none),
        Ok(LockUnit { repo: "repo".to_string(), lock_type: LockType::Branch("main".to_string()) })
    );
    assert_eq!(
        resolve(&declared(Some(DepType::Commit("abc".to_string()))), &none),
        Ok(LockUnit { repo: "repo".to_string(), lock_type: LockType::Commit("abc".to_string()) })
    );
    assert_eq!(
        resolve(&declared(Some(DepType::Version("*".to_string()))), &none),
        Err(ResolveError::NoMatchingVersion { repo: "repo".to_string(), range: "*".to_string() })
    );
}

#[test]
fn commit_is_a_run_of_word_characters() {
    let line = |s: &str| parse_tag_line(&s.chars().collect::<Vec<char>>());
    assert_eq!(line("é9_Z\tv1"), Some(tag("1", "é9_Z")));
    assert_eq!(line("a€b\tv1"), Some(tag("1", "b")));
    assert_eq!(line("a-b\tv1"), Some(tag("1", "b")));
}

#[test]
fn sort_agrees_with_the_order_of_versions() {
    let texts = [
        "1.0.0", "1.0.0-alpha", "1.0.0-alpha.1", "1.0.0-alpha.beta", "1.0.0-beta", "1.0.0-beta.2",
        "1.0.0-beta.11", "1.0.0-rc.1", "0.9.9", "10.0.0", "2.0.0", "1.10.0", "1.2.0", "1.0.0+build",
        "1.0.0+a", "0.0.0", "1.0.0-0", "1.0.0-x.7.z.92",
    ];
    let mut seed: usize = 7;
    for _ in 0..30 {
        let mut listed = vec![];
        for _ in 0..12 {
            seed = seed.wrapping_mul(6364136223846793005).wrapping_add(1442695040888963407);
            let text = texts[(seed >> 33) % texts.len()];
            listed.push(tag(text, &format!("c{}", listed.len())));
        }
        let sorted = sort_tags(&listed);
        let mut expected = listed.clone();
        expected.sort_by_key(|t| Version::parse(&t.version).unwrap());
        assert_eq!(sorted, expected);
        for requirement in ["^1", ">=1.0.0-beta, <1.2", "<1.0.0", "*", "=2.0.0", ">10"] {
            let req = semver::VersionReq::parse(requirement).unwrap();
            let expected = sorted
                .iter()
                .rposition(|t| req.matches(&Version::parse(&t.version).unwrap()));
            assert_eq!(best_match(&sorted, requirement), expected);
        }
    }
}
