use crack::{clean, dep_dir, lock_file, sorted_locks, LockType, LockUnit, ResolveError};

const REPO: &str = "https://github.com/WinstonMDP/githubOtherFiles.git";

fn branch(name: &str) -> LockUnit {
    LockUnit { repo: REPO.to_string(), lock_type: LockType::Branch(name.to_string()) }
}

fn commit(hash: &str) -> LockUnit {
    LockUnit { repo: REPO.to_string(), lock_type: LockType::Commit(hash.to_string()) }
}

fn entries(names: &[&str]) -> Vec<String> {
    names.iter().map(|n| n.to_string()).collect()
}

#[test]
fn clean_t_1() {
    let stale =
        clean(&vec![], &entries(&["WinstonMDP.githubOtherFiles.branch.default"])).unwrap();
    assert_eq!(stale, entries(&["WinstonMDP.githubOtherFiles.branch.default"]));
}

#[test]
fn clean_t_2() {
    let on_disk = entries(&[
        "WinstonMDP.githubOtherFiles.branch.b",
        "WinstonMDP.githubOtherFiles.branch.default",
    ]);
    let stale = clean(&vec![branch("default")], &on_disk).unwrap();
    assert_eq!(stale, entries(&["WinstonMDP.githubOtherFiles.branch.b"]));
    assert!(!stale.contains(&"WinstonMDP.githubOtherFiles.branch.default".to_string()));
}

#[test]
fn clean_deletes_exactly_what_no_lock_names() {
    let d1 = branch("d1");
    let on_disk = entries(&[&dep_dir(&d1).unwrap(), &dep_dir(&commit("d2")).unwrap()]);
    assert_eq!(clean(&vec![d1], &on_disk).unwrap(), entries(&[&dep_dir(&commit("d2")).unwrap()]));
}

#[test]
fn clean_keeps_the_order_of_the_entries() {
    let on_disk = entries(&["z", "WinstonMDP.githubOtherFiles.commit.c", "a", "m", "a"]);
    assert_eq!(
        clean(&vec![commit("c"), branch("x")], &on_disk).unwrap(),
        entries(&["z", "a", "m", "a"])
    );
    assert_eq!(clean(&vec![commit("c")], &vec![]).unwrap(), entries(&[]));
}

#[test]
fn clean_fails_on_the_first_invalid_lock() {
    let bad = |repo: &str| LockUnit {
        repo: repo.to_string(),
        lock_type: LockType::Branch("b".to_string()),
    };
    assert_eq!(
        clean(&vec![branch("a"), bad("first"), bad("second")], &entries(&["x"])).unwrap_err(),
        ResolveError::InvalidRepoUrl { repo: "first".to_string() }
    );
}

#[test]
fn locks_are_sorted_and_stand_once() {
    let other = LockUnit { repo: "a".to_string(), lock_type: LockType::Commit("z".to_string()) };
    let collected = vec![
        commit("1"),
        branch("with_dependencies"),
        branch("default"),
        commit("0"),
        other.clone(),
        branch("default"),
        branch(""),
        commit("1"),
    ];
    let sorted = sorted_locks(&collected);
    assert_eq!(
        sorted,
        vec![
            other,
            branch(""),
            branch("default"),
            branch("with_dependencies"),
            commit("0"),
            commit("1")
        ]
    );
    let mut by_std = collected.clone();
    by_std.sort();
    by_std.dedup();
    assert_eq!(sorted, by_std);
    let flags = ["flag", "other", "flag", "", "other"].map(String::from).to_vec();
    let file = lock_file(vec![], flags, &collected);
    assert_eq!(file.locks, sorted);
    assert_eq!(file.root_options, vec!["flag".to_string(), "other".to_string(), String::new()]);
    assert!(file.root_deps.is_empty());
}
