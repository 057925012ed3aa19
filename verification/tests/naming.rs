use crack::{dep_dir, repo_author_and_name, LockType, LockUnit, ResolveError};

fn branch(repo: &str, name: &str) -> LockUnit {
    LockUnit { repo: repo.to_string(), lock_type: LockType::Branch(name.to_string()) }
}

fn commit(repo: &str, hash: &str) -> LockUnit {
    LockUnit { repo: repo.to_string(), lock_type: LockType::Commit(hash.to_string()) }
}

#[test]
fn repo_author_and_name_t_1() {
    assert_eq!(
        repo_author_and_name("https://github.com/WinstonMDP/repo_name.git").unwrap(),
        "WinstonMDP.repo_name"
    );
}

#[test]
fn repo_author_and_name_t_2() {
    assert_eq!(
        repo_author_and_name("https://github.com/WinstonMDP/repo-name.git").unwrap(),
        "WinstonMDP.repo-name"
    );
}

#[test]
fn repo_without_git_ending_is_invalid() {
    let url = "https://github.com/WinstonMDP/repo_name";
    assert_eq!(
        repo_author_and_name(url).unwrap_err(),
        ResolveError::InvalidRepoUrl { repo: url.to_string() }
    );
}

#[test]
fn repo_with_text_after_git_ending_is_invalid() {
    let url = "https://github.com/WinstonMDP/repo_name.git/";
    assert_eq!(
        repo_author_and_name(url).unwrap_err(),
        ResolveError::InvalidRepoUrl { repo: url.to_string() }
    );
}

#[test]
fn repo_without_two_segments_is_invalid() {
    for url in [
        "repo_name.git",
        ".git",
        "",
        "git",
        "a.b.git",
        "/repo.git",
        "//repo.git",
        "a/.git",
        "/.git",
        "https://github.com//repo.git",
        "https://github.com/author/.git",
        "https://host/name.git",
        "https://github.com/name.git",
        "ssh://host/name.git",
        "https://host:8080/name.git",
        "host:name.git",
    ] {
        assert_eq!(
            repo_author_and_name(url).unwrap_err(),
            ResolveError::InvalidRepoUrl { repo: url.to_string() }
        );
    }
}

#[test]
fn author_and_name_are_the_last_two_segments_of_the_path() {
    for url in [
        "author/name.git",
        "/author/name.git",
        "git@github.com:author/name.git",
        "https://github.com/author/name.git",
        "https://github.com/group/author/name.git",
        "https://host:8080/author/name.git",
        "ssh://git@host/author/name.git",
        "file:///author/name.git",
        "C:/author/name.git",
        "../author/name.git",
    ] {
        assert_eq!(repo_author_and_name(url).unwrap(), "author.name", "{url}");
    }
}

#[test]
fn segment_with_another_character_is_invalid() {
    for url in [
        "x.y/name.git",
        "https://github.com/au thor/name.git",
        "https://github.com/author/na.me.git",
        "https://github.com/author/name.git.git",
        "https://github.com/~author/name.git",
        "a:b/c/name.git/x.git:author/name.git",
    ] {
        assert_eq!(
            repo_author_and_name(url).unwrap_err(),
            ResolveError::InvalidRepoUrl { repo: url.to_string() },
            "{url}"
        );
    }
}

#[test]
fn dep_dir_of_a_branch() {
    assert_eq!(
        dep_dir(&branch("https://github.com/WinstonMDP/githubOtherFiles.git", "default")).unwrap(),
        "WinstonMDP.githubOtherFiles.branch.default"
    );
}

#[test]
fn dep_dir_of_a_commit() {
    assert_eq!(
        dep_dir(&commit(
            "https://github.com/WinstonMDP/githubOtherFiles.git",
            "909896f5646b7fd9f058dcd21961b8d5599dec3b"
        ))
        .unwrap(),
        "WinstonMDP.githubOtherFiles.commit.909896f5646b7fd9f058dcd21961b8d5599dec3b"
    );
}

#[test]
fn dep_dir_of_an_invalid_repo() {
    assert_eq!(
        dep_dir(&branch("https://github.com/WinstonMDP", "default")).unwrap_err(),
        ResolveError::InvalidRepoUrl { repo: "https://github.com/WinstonMDP".to_string() }
    );
}

#[test]
fn dep_dir_is_deterministic_and_tells_pins_apart() {
    let repo = "https://github.com/WinstonMDP/githubOtherFiles.git";
    let pins = [
        branch(repo, "a"),
        branch(repo, "b"),
        commit(repo, "a"),
        commit(repo, "b"),
        branch(repo, "a.commit.b"),
        branch(repo, ""),
        commit(repo, ""),
    ];
    for (i, x) in pins.iter().enumerate() {
        assert_eq!(dep_dir(x).unwrap(), dep_dir(&x.clone()).unwrap());
        for (j, y) in pins.iter().enumerate() {
            if i != j {
                assert_ne!(dep_dir(x).unwrap(), dep_dir(y).unwrap());
            }
        }
    }
}

#[test]
fn names_may_hold_word_characters_beyond_ascii() {
    assert_eq!(
        repo_author_and_name("https://example.org/автор/проект_1.git").unwrap(),
        "автор.проект_1"
    );
    for url in ["https://example.org/a€b/c.git", "https://example.org/a/b€.git"] {
        assert_eq!(
            repo_author_and_name(url).unwrap_err(),
            ResolveError::InvalidRepoUrl { repo: url.to_string() }
        );
    }
}
