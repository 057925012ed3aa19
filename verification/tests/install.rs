use crack::{
    cfg_install, install, lock_file, Action, BuildUnit, Cfg, Dep, DepType, Event, LockType,
    LockUnit, ResolveError, VersionTag, Walk,
};
use std::collections::HashMap;

const REPO: &str = "https://github.com/WinstonMDP/githubOtherFiles.git";

/// The locks of the lock file and the stages of the build file.
type Artifacts = (Vec<LockUnit>, Vec<Vec<BuildUnit>>);

/// What stands for the disk and the network: the directories with their
/// manifests, and a record of what was asked.
struct World {
    dirs: HashMap<String, Cfg>,
    installed: Vec<String>,
    listed: Vec<String>,
    loaded: Vec<String>,
}

impl World {
    fn new() -> World {
        World { dirs: HashMap::new(), installed: vec![], listed: vec![], loaded: vec![] }
    }

    fn nfiles(&self) -> usize {
        self.dirs.len()
    }

    fn holds(&self, dir: &str) -> bool {
        self.dirs.contains_key(dir)
    }
}

fn dep(branch: Option<&str>) -> Dep {
    Dep {
        name: None,
        repo: REPO.to_string(),
        dep_type: branch.map(|b| DepType::Branch(b.to_string())),
        options: None,
        option_name: None,
    }
}

fn named(name: &str, dep_type: DepType) -> Dep {
    Dep {
        name: Some(name.to_string()),
        repo: REPO.to_string(),
        dep_type: Some(dep_type),
        options: None,
        option_name: None,
    }
}

fn cfg(name: &str, deps: Vec<Dep>, dev_deps: Vec<Dep>) -> Cfg {
    Cfg { name: name.to_string(), interpreter: "/bin/sanskrit".to_string(), dev_deps, deps }
}

/// The manifest that a checkout of `lock` holds.
fn manifest(lock: &LockUnit) -> Cfg {
    match &lock.lock_type {
        LockType::Branch(branch) => match branch.as_str() {
            "default" | "main" | "b" => cfg("otherFiles", vec![], vec![]),
            "with_dependencies" => cfg("otherDependencies", vec![dep(None)], vec![]),
            "cyclic_1" => cfg("otherFiles", vec![dep(Some("cyclic_2"))], vec![]),
            "cyclic_2" => cfg("otherFiles", vec![dep(Some("cyclic_1"))], vec![]),
            "dev_dep_deps" => cfg("otherFiles", vec![dep(Some("dev_dep"))], vec![]),
            "dev_dep" => cfg("otherFiles", vec![], vec![dep(None)]),
            "optional_branch" => cfg(
                "otherFiles",
                vec![Dep { option_name: Some("option".to_string()), ..dep(None) }],
                vec![],
            ),
            "left" | "right" => cfg(branch, vec![dep(Some("b"))], vec![]),
            other => panic!("no manifest for the branch {other}"),
        },
        LockType::Commit(commit) => match commit.as_str() {
            "30cfb86f4e76810eedc1d8d57167289a2b63b4ac" => {
                cfg("otherFiles", vec![dep(None)], vec![])
            }
            "909896f5646b7fd9f058dcd21961b8d5599dec3b"
            | "a4bf57c513ebc8ed89cc546e8c120c9321357632" => cfg("otherFiles", vec![], vec![]),
            other => panic!("no manifest for the commit {other}"),
        },
    }
}

fn tags() -> Vec<VersionTag> {
    vec![
        VersionTag {
            version: "2.0.1".to_string(),
            commit: "a4bf57c513ebc8ed89cc546e8c120c9321357632".to_string(),
        },
        VersionTag {
            version: "0.3.5".to_string(),
            commit: "e636a1ec3659dee39ae935837fb13eea7e7d8faf".to_string(),
        },
        VersionTag {
            version: "1.3.5".to_string(),
            commit: "909896f5646b7fd9f058dcd21961b8d5599dec3b".to_string(),
        },
    ]
}

/// Runs a walk to its end, doing in `world` what the walk asks.
fn run(mut walk: Walk, world: &mut World) -> Result<Artifacts, ResolveError> {
    let mut event = Event::Resume;
    loop {
        assert!(walk.expects(&event));
        assert!(walk.room());
        event = match walk.step(event)? {
            Action::Proceed => Event::Resume,
            Action::ListTags { repo } => {
                world.listed.push(repo);
                Event::Tags(Ok(tags()))
            }
            Action::Probe { dir } => Event::Probed(world.dirs.contains_key(&dir)),
            Action::Install { dir, lock } => {
                assert!(!world.dirs.contains_key(&dir));
                world.installed.push(dir.clone());
                world.dirs.insert(dir, manifest(&lock));
                Event::Installed(Ok(()))
            }
            Action::Load { dir } => {
                world.loaded.push(dir.clone());
                Event::Loaded(world.dirs.get(&dir).cloned().ok_or(format!("no manifest in {dir}")))
            }
            Action::Finish => break,
        };
    }
    assert!(walk.finished());
    let (collected, stages) = walk.finish();
    Ok((lock_file(vec![], vec![], &collected).locks, stages))
}

/// Resolves the project whose manifest declares `deps`, as the command
/// `install` does.
fn install_cfg(deps: Vec<Dep>, world: &mut World) -> Result<Artifacts, ResolveError> {
    run(cfg_install(cfg("package_name", deps, vec![]), vec![]), world)
}

fn branch(name: &str) -> LockUnit {
    LockUnit { repo: REPO.to_string(), lock_type: LockType::Branch(name.to_string()) }
}

fn commit(hash: &str) -> LockUnit {
    LockUnit { repo: REPO.to_string(), lock_type: LockType::Commit(hash.to_string()) }
}

fn unit(dir: &str, names: &[(&str, &str)]) -> BuildUnit {
    let names: Vec<(String, String)> =
        names.iter().map(|(n, d)| (n.to_string(), d.to_string())).collect();
    BuildUnit::new(dir.to_string(), &names).unwrap()
}

#[test]
fn install_t_1() {
    let mut world = World::new();
    for _ in 0..2 {
        let (locks, stages) = install_cfg(vec![dep(None)], &mut world).unwrap();
        assert_eq!(locks, vec![branch("default")]);
        assert_eq!(
            stages,
            vec![
                vec![unit("WinstonMDP.githubOtherFiles.branch.default", &[])],
                vec![unit(
                    "root",
                    &[("otherFiles", "WinstonMDP.githubOtherFiles.branch.default")]
                )]
            ]
        );
        assert!(world.holds("WinstonMDP.githubOtherFiles.branch.default"));
        assert_eq!(world.nfiles(), 1);
    }
}

#[test]
fn install_t_2() {
    let mut world = World::new();
    let (locks, stages) = install_cfg(vec![dep(Some("main"))], &mut world).unwrap();
    assert_eq!(locks, vec![branch("main")]);
    assert_eq!(
        stages,
        vec![
            vec![unit("WinstonMDP.githubOtherFiles.branch.main", &[])],
            vec![unit("root", &[("otherFiles", "WinstonMDP.githubOtherFiles.branch.main")])]
        ]
    );
    assert!(world.holds("WinstonMDP.githubOtherFiles.branch.main"));
    assert_eq!(world.nfiles(), 1);
}

#[test]
fn install_t_3() {
    let mut world = World::new();
    let (locks, stages) = install_cfg(
        vec![dep(None), named("name_for_b", DepType::Branch("b".to_string()))],
        &mut world,
    )
    .unwrap();
    assert_eq!(locks, vec![branch("b"), branch("default")]);
    assert_eq!(
        stages,
        vec![
            vec![unit("WinstonMDP.githubOtherFiles.branch.b", &[])],
            vec![unit("WinstonMDP.githubOtherFiles.branch.default", &[])],
            vec![unit(
                "root",
                &[
                    ("otherFiles", "WinstonMDP.githubOtherFiles.branch.default"),
                    ("name_for_b", "WinstonMDP.githubOtherFiles.branch.b")
                ]
            )]
        ]
    );
    assert!(world.holds("WinstonMDP.githubOtherFiles.branch.default"));
    assert!(world.holds("WinstonMDP.githubOtherFiles.branch.b"));
    assert_eq!(world.nfiles(), 2);
}

fn with_dependencies_stages() -> Vec<Vec<BuildUnit>> {
    vec![
        vec![unit("WinstonMDP.githubOtherFiles.branch.default", &[])],
        vec![unit(
            "WinstonMDP.githubOtherFiles.branch.with_dependencies",
            &[("otherFiles", "WinstonMDP.githubOtherFiles.branch.default")],
        )],
        vec![unit(
            "root",
            &[("otherDependencies", "WinstonMDP.githubOtherFiles.branch.with_dependencies")],
        )],
    ]
}

#[test]
fn install_t_4() {
    let mut world = World::new();
    for _ in 0..2 {
        let (locks, stages) =
            install_cfg(vec![dep(Some("with_dependencies"))], &mut world).unwrap();
        assert_eq!(locks, vec![branch("default"), branch("with_dependencies")]);
        assert_eq!(stages, with_dependencies_stages());
        assert!(world.holds("WinstonMDP.githubOtherFiles.branch.default"));
        assert!(world.holds("WinstonMDP.githubOtherFiles.branch.with_dependencies"));
        assert_eq!(world.nfiles(), 2);
    }
}

#[test]
fn install_t_5() {
    let mut world = World::new();
    let hash = "909896f5646b7fd9f058dcd21961b8d5599dec3b";
    let mut declared = dep(None);
    declared.dep_type = Some(DepType::Commit(hash.to_string()));
    let (locks, stages) = install_cfg(vec![declared], &mut world).unwrap();
    assert_eq!(locks, vec![commit(hash)]);
    let dir = "WinstonMDP.githubOtherFiles.commit.909896f5646b7fd9f058dcd21961b8d5599dec3b";
    assert_eq!(
        stages,
        vec![vec![unit(dir, &[])], vec![unit("root", &[("otherFiles", dir)])]]
    );
    assert!(world.holds(dir));
    assert_eq!(world.nfiles(), 1);
}

#[test]
fn install_t_6() {
    let mut world = World::new();
    let hash = "30cfb86f4e76810eedc1d8d57167289a2b63b4ac";
    let (locks, stages) = install_cfg(
        vec![named("commit_package", DepType::Commit(hash.to_string()))],
        &mut world,
    )
    .unwrap();
    assert_eq!(locks, vec![branch("default"), commit(hash)]);
    let dir = "WinstonMDP.githubOtherFiles.commit.30cfb86f4e76810eedc1d8d57167289a2b63b4ac";
    assert_eq!(
        stages,
        vec![
            vec![unit("WinstonMDP.githubOtherFiles.branch.default", &[])],
            vec![unit(dir, &[("otherFiles", "WinstonMDP.githubOtherFiles.branch.default")])],
            vec![unit("root", &[("commit_package", dir)])]
        ]
    );
    assert!(world.holds(dir));
    assert!(world.holds("WinstonMDP.githubOtherFiles.branch.default"));
    assert_eq!(world.nfiles(), 2);
}

#[test]
fn install_t_7() {
    let mut world = World::new();
    let (locks, stages) = install_cfg(vec![dep(None)], &mut world).unwrap();
    assert_eq!(locks, vec![branch("default")]);
    assert_eq!(
        stages,
        vec![
            vec![unit("WinstonMDP.githubOtherFiles.branch.default", &[])],
            vec![unit("root", &[("otherFiles", "WinstonMDP.githubOtherFiles.branch.default")])]
        ]
    );
    assert!(world.holds("WinstonMDP.githubOtherFiles.branch.default"));
    assert!(!world.holds("WinstonMDP.githubOtherFiles.branch.b"));
    assert_eq!(world.nfiles(), 1);
    let (locks, stages) = install_cfg(vec![dep(Some("b"))], &mut world).unwrap();
    assert_eq!(locks, vec![branch("b")]);
    assert_eq!(
        stages,
        vec![
            vec![unit("WinstonMDP.githubOtherFiles.branch.b", &[])],
            vec![unit("root", &[("otherFiles", "WinstonMDP.githubOtherFiles.branch.b")])]
        ]
    );
    assert!(world.holds("WinstonMDP.githubOtherFiles.branch.default"));
    assert!(world.holds("WinstonMDP.githubOtherFiles.branch.b"));
    assert_eq!(world.nfiles(), 2);
}

#[test]
fn install_t_8() {
    let mut world = World::new();
    let (locks, stages) = install_cfg(vec![dep(None)], &mut world).unwrap();
    assert_eq!(locks, vec![branch("default")]);
    assert_eq!(
        stages,
        vec![
            vec![unit("WinstonMDP.githubOtherFiles.branch.default", &[])],
            vec![unit("root", &[("otherFiles", "WinstonMDP.githubOtherFiles.branch.default")])]
        ]
    );
    assert!(world.holds("WinstonMDP.githubOtherFiles.branch.default"));
    assert_eq!(world.nfiles(), 1);
    let (locks, stages) = install_cfg(vec![dep(Some("with_dependencies"))], &mut world).unwrap();
    assert_eq!(locks, vec![branch("default"), branch("with_dependencies")]);
    assert_eq!(stages, with_dependencies_stages());
    assert!(world.holds("WinstonMDP.githubOtherFiles.branch.default"));
    assert!(world.holds("WinstonMDP.githubOtherFiles.branch.with_dependencies"));
    assert_eq!(world.nfiles(), 2);
}

#[test]
fn install_t_9() {
    let mut world = World::new();
    let (locks, stages) = install_cfg(
        vec![named("cycle", DepType::Branch("cyclic_1".to_string()))],
        &mut world,
    )
    .unwrap();
    assert_eq!(locks, vec![branch("cyclic_1"), branch("cyclic_2")]);
    assert_eq!(
        stages,
        vec![
            vec![
                unit(
                    "WinstonMDP.githubOtherFiles.branch.cyclic_1",
                    &[("otherFiles", "WinstonMDP.githubOtherFiles.branch.cyclic_2")]
                ),
                unit(
                    "WinstonMDP.githubOtherFiles.branch.cyclic_2",
                    &[("otherFiles", "WinstonMDP.githubOtherFiles.branch.cyclic_1")]
                ),
            ],
            vec![unit("root", &[("cycle", "WinstonMDP.githubOtherFiles.branch.cyclic_1")])]
        ]
    );
    assert!(world.holds("WinstonMDP.githubOtherFiles.branch.cyclic_1"));
    assert!(world.holds("WinstonMDP.githubOtherFiles.branch.cyclic_2"));
    assert_eq!(world.nfiles(), 2);
}

#[test]
fn install_t_10() {
    let mut world = World::new();
    let e = install_cfg(vec![dep(None), dep(Some("b"))], &mut world).unwrap_err();
    assert_eq!(
        e,
        ResolveError::NameCollision { dir: "root".to_string(), name: "otherFiles".to_string() }
    );
}

#[test]
fn install_t_11() {
    let mut world = World::new();
    let mut declared = dep(None);
    declared.dep_type = Some(DepType::Version("1.0.0".to_string()));
    let (locks, stages) = install_cfg(vec![declared], &mut world).unwrap();
    let hash = "909896f5646b7fd9f058dcd21961b8d5599dec3b";
    assert_eq!(locks, vec![commit(hash)]);
    let dir = "WinstonMDP.githubOtherFiles.commit.909896f5646b7fd9f058dcd21961b8d5599dec3b";
    assert_eq!(
        stages,
        vec![vec![unit(dir, &[])], vec![unit("root", &[("otherFiles", dir)])]]
    );
    assert!(world.holds(dir));
    assert_eq!(world.nfiles(), 1);
}

#[test]
fn install_t_12() {
    let mut world = World::new();
    let mut declared = dep(None);
    declared.dep_type = Some(DepType::Version("=1.0.0".to_string()));
    let e = install_cfg(vec![declared], &mut world).unwrap_err();
    assert_eq!(
        e,
        ResolveError::NoMatchingVersion { repo: REPO.to_string(), range: "=1.0.0".to_string() }
    );
    assert_eq!(world.nfiles(), 0);
}

#[test]
fn install_t_13() {
    let mut world = World::new();
    let (locks, stages) = install_cfg(vec![dep(Some("dev_dep_deps"))], &mut world).unwrap();
    assert_eq!(locks, vec![branch("dev_dep"), branch("dev_dep_deps")]);
    assert_eq!(
        stages,
        vec![
            vec![unit("WinstonMDP.githubOtherFiles.branch.dev_dep", &[])],
            vec![unit(
                "WinstonMDP.githubOtherFiles.branch.dev_dep_deps",
                &[("otherFiles", "WinstonMDP.githubOtherFiles.branch.dev_dep")]
            )],
            vec![unit(
                "root",
                &[("otherFiles", "WinstonMDP.githubOtherFiles.branch.dev_dep_deps")]
            )]
        ]
    );
    assert!(world.holds("WinstonMDP.githubOtherFiles.branch.dev_dep_deps"));
    assert!(world.holds("WinstonMDP.githubOtherFiles.branch.dev_dep"));
    assert_eq!(world.nfiles(), 2);
}

#[test]
fn install_t_14() {
    let mut world = World::new();
    let (locks, stages) = install_cfg(vec![dep(Some("optional_branch"))], &mut world).unwrap();
    assert_eq!(locks, vec![branch("optional_branch")]);
    assert_eq!(
        stages,
        vec![
            vec![unit("WinstonMDP.githubOtherFiles.branch.optional_branch", &[])],
            vec![unit(
                "root",
                &[("otherFiles", "WinstonMDP.githubOtherFiles.branch.optional_branch")]
            )]
        ]
    );
    assert!(world.holds("WinstonMDP.githubOtherFiles.branch.optional_branch"));
    assert!(!world.holds("WinstonMDP.githubOtherFiles.branch.default"));
    assert_eq!(world.nfiles(), 1);
}

#[test]
fn install_t_15() {
    let mut world = World::new();
    let mut declared = dep(Some("optional_branch"));
    declared.options = Some(vec!["option".to_string()]);
    let (locks, stages) = install_cfg(vec![declared], &mut world).unwrap();
    assert_eq!(locks, vec![branch("default"), branch("optional_branch")]);
    assert_eq!(
        stages,
        vec![
            vec![unit("WinstonMDP.githubOtherFiles.branch.default", &[])],
            vec![unit(
                "WinstonMDP.githubOtherFiles.branch.optional_branch",
                &[("otherFiles", "WinstonMDP.githubOtherFiles.branch.default")]
            )],
            vec![unit(
                "root",
                &[("otherFiles", "WinstonMDP.githubOtherFiles.branch.optional_branch")]
            )]
        ]
    );
    assert!(world.holds("WinstonMDP.githubOtherFiles.branch.optional_branch"));
    assert!(world.holds("WinstonMDP.githubOtherFiles.branch.default"));
    assert_eq!(world.nfiles(), 2);
}

#[test]
fn resolving_twice_installs_nothing_new_and_gives_the_same_artifacts() {
    let mut world = World::new();
    let deps = vec![
        named("cycle", DepType::Branch("cyclic_1".to_string())),
        dep(Some("with_dependencies")),
    ];
    let first = install_cfg(deps.clone(), &mut world).unwrap();
    let installed = world.installed.clone();
    assert_eq!(installed.len(), 4);
    let second = install_cfg(deps, &mut world).unwrap();
    assert_eq!(first, second);
    assert_eq!(world.installed, installed);
    assert_eq!(world.nfiles(), 4);
}

#[test]
fn cycle_is_one_stage_before_the_root() {
    let mut world = World::new();
    let (locks, stages) = install_cfg(vec![dep(Some("cyclic_1"))], &mut world).unwrap();
    assert_eq!(locks.len(), 2);
    assert_eq!(stages.len(), 2);
    assert_eq!(stages[0].len(), 2);
    assert_eq!(stages[1].len(), 1);
    assert_eq!(stages[1][0].dir(), "root");
    let mut dirs: Vec<&str> = stages[0].iter().map(|u| u.dir().as_str()).collect();
    dirs.sort();
    assert_eq!(
        dirs,
        vec![
            "WinstonMDP.githubOtherFiles.branch.cyclic_1",
            "WinstonMDP.githubOtherFiles.branch.cyclic_2"
        ]
    );
}

#[test]
fn diamond_is_one_node_one_fetch_one_lock() {
    let mut world = World::new();
    let (locks, stages) = install_cfg(
        vec![
            named("left", DepType::Branch("left".to_string())),
            named("right", DepType::Branch("right".to_string())),
            named("direct", DepType::Branch("b".to_string())),
        ],
        &mut world,
    )
    .unwrap();
    assert_eq!(locks, vec![branch("b"), branch("left"), branch("right")]);
    let b = "WinstonMDP.githubOtherFiles.branch.b";
    assert_eq!(world.installed.iter().filter(|d| d.as_str() == b).count(), 1);
    let nodes: Vec<&BuildUnit> = stages.iter().flatten().collect();
    assert_eq!(nodes.len(), 4);
    assert_eq!(nodes.iter().filter(|u| u.dir() == b).count(), 1);
    assert_eq!(stages[0], vec![unit(b, &[])]);
    assert_eq!(stages.last().unwrap()[0].dir(), "root");
}

#[test]
fn gated_declaration_is_absent_unless_its_flag_is_on() {
    let gated = Dep { option_name: Some("extra".to_string()), ..dep(Some("b")) };
    let deps = vec![dep(None), Dep { name: Some("more".to_string()), ..gated }];

    let mut world = World::new();
    let (locks, stages) =
        run(install(deps.clone(), vec!["other".to_string()]), &mut world).unwrap();
    assert_eq!(locks, vec![branch("default")]);
    assert_eq!(stages.iter().flatten().count(), 2);
    assert!(!world.holds("WinstonMDP.githubOtherFiles.branch.b"));
    assert_eq!(world.loaded, vec!["WinstonMDP.githubOtherFiles.branch.default"]);

    let mut world = World::new();
    let (locks, stages) = run(install(deps, vec!["extra".to_string()]), &mut world).unwrap();
    assert_eq!(locks, vec![branch("b"), branch("default")]);
    assert_eq!(stages.iter().flatten().count(), 3);
    assert!(world.holds("WinstonMDP.githubOtherFiles.branch.b"));
}

#[test]
fn tags_of_a_repository_are_listed_once() {
    let mut world = World::new();
    let mut first = named("one", DepType::Version("^1.0.0".to_string()));
    first.options = None;
    let second = named("two", DepType::Version(">=2".to_string()));
    let (locks, _) = install_cfg(vec![first, second], &mut world).unwrap();
    assert_eq!(world.listed, vec![REPO.to_string()]);
    assert_eq!(
        locks,
        vec![
            commit("909896f5646b7fd9f058dcd21961b8d5599dec3b"),
            commit("a4bf57c513ebc8ed89cc546e8c120c9321357632")
        ]
    );
}

#[test]
fn failures_of_the_caller_end_the_walk() {
    let mut walk = install(vec![dep(None)], vec![]);
    assert_eq!(walk.step(Event::Resume), Ok(Action::Proceed));
    assert_eq!(
        walk.step(Event::Resume),
        Ok(Action::Probe { dir: "WinstonMDP.githubOtherFiles.branch.default".to_string() })
    );
    assert_eq!(
        walk.step(Event::Probed(false)),
        Ok(Action::Install {
            dir: "WinstonMDP.githubOtherFiles.branch.default".to_string(),
            lock: branch("default")
        })
    );
    assert_eq!(
        walk.step(Event::Installed(Err("no network".to_string()))),
        Err(ResolveError::InstallFailure {
            lock: branch("default"),
            message: "no network".to_string()
        })
    );
    assert!(!walk.expects(&Event::Resume));

    let mut walk = install(vec![dep(None)], vec![]);
    walk.step(Event::Resume).unwrap();
    walk.step(Event::Resume).unwrap();
    assert_eq!(
        walk.step(Event::Probed(true)),
        Ok(Action::Load { dir: "WinstonMDP.githubOtherFiles.branch.default".to_string() })
    );
    assert_eq!(
        walk.step(Event::Loaded(Err("no name".to_string()))),
        Err(ResolveError::ManifestError {
            dir: "WinstonMDP.githubOtherFiles.branch.default".to_string(),
            message: "no name".to_string()
        })
    );

    let mut declared = dep(None);
    declared.dep_type = Some(DepType::Version("1".to_string()));
    let mut walk = install(vec![declared], vec![]);
    walk.step(Event::Resume).unwrap();
    assert_eq!(walk.step(Event::Resume), Ok(Action::ListTags { repo: REPO.to_string() }));
    assert_eq!(
        walk.step(Event::Tags(Err("offline".to_string()))),
        Err(ResolveError::IoError { message: "offline".to_string() })
    );
}

#[test]
fn invalid_repo_fails_before_anything_is_probed() {
    let mut declared = dep(None);
    declared.repo = "https://github.com/WinstonMDP".to_string();
    let mut world = World::new();
    let e = install_cfg(vec![declared], &mut world).unwrap_err();
    assert_eq!(
        e,
        ResolveError::InvalidRepoUrl { repo: "https://github.com/WinstonMDP".to_string() }
    );
    assert_eq!(world.nfiles(), 0);
}

#[test]
fn empty_project_is_one_stage() {
    let mut world = World::new();
    let (locks, stages) = install_cfg(vec![], &mut world).unwrap();
    assert_eq!(locks, vec![]);
    assert_eq!(stages, vec![vec![unit("root", &[])]]);
}

#[test]
fn dev_deps_of_the_root_are_walked() {
    let mut world = World::new();
    let project = cfg(
        "package_name",
        vec![dep(None)],
        vec![named("dev", DepType::Branch("b".to_string()))],
    );
    let (locks, stages) = run(cfg_install(project, vec![]), &mut world).unwrap();
    assert_eq!(locks, vec![branch("b"), branch("default")]);
    assert_eq!(
        stages.last().unwrap(),
        &vec![unit(
            "root",
            &[
                ("dev", "WinstonMDP.githubOtherFiles.branch.b"),
                ("otherFiles", "WinstonMDP.githubOtherFiles.branch.default")
            ]
        )]
    );
}

#[test]
fn every_directory_that_a_unit_names_is_built_and_locked() {
    let mut world = World::new();
    let (locks, stages) = install_cfg(
        vec![
            named("cycle", DepType::Branch("cyclic_1".to_string())),
            dep(Some("with_dependencies")),
            named(
                "commit_package",
                DepType::Commit("30cfb86f4e76810eedc1d8d57167289a2b63b4ac".to_string()),
            ),
        ],
        &mut world,
    )
    .unwrap();
    let units: Vec<&BuildUnit> = stages.iter().flatten().collect();
    let place = |dir: &str| stages.iter().position(|s| s.iter().any(|u| u.dir() == dir));
    for (at, stage) in stages.iter().enumerate() {
        for u in stage {
            for (_, target) in u.name_map() {
                assert!(place(target).unwrap() <= at);
            }
        }
    }
    let dirs: Vec<String> = locks.iter().map(|l| crack::dep_dir(l).unwrap()).collect();
    for u in &units {
        assert!(u.dir() == "root" || dirs.contains(u.dir()));
    }
    for d in &dirs {
        assert!(units.iter().any(|u| u.dir() == d));
        assert!(world.holds(d));
    }
    assert_eq!(locks.len(), 5);
    assert_eq!(units.len(), 6);
}

#[test]
fn failed_step_registers_nothing() {
    let drive = |walk: &mut Walk| {
        let mut event = Event::Resume;
        loop {
            event = match walk.step(event) {
                Err(e) => return e,
                Ok(Action::Proceed) => Event::Resume,
                Ok(Action::ListTags { .. }) => Event::Tags(Ok(tags())),
                Ok(Action::Probe { .. }) => Event::Probed(true),
                Ok(Action::Load { dir }) => {
                    let branch = dir.rsplit('.').next().unwrap().to_string();
                    Event::Loaded(Ok(manifest(&LockUnit {
                        repo: REPO.to_string(),
                        lock_type: LockType::Branch(branch),
                    })))
                }
                Ok(other) => panic!("nothing is to be checked out, yet {other:?} is asked"),
            };
        }
    };

    let mut walk = install(vec![dep(None), dep(Some("b"))], vec![]);
    assert_eq!(
        drive(&mut walk),
        ResolveError::NameCollision { dir: "root".to_string(), name: "otherFiles".to_string() }
    );
    assert_eq!(walk.nodes(), 0);
    assert!(walk.locks().is_empty());
    assert!(!walk.finished());

    let mut declared = dep(None);
    declared.dep_type = Some(DepType::Version("=3.0.0".to_string()));
    let mut walk = install(vec![declared], vec![]);
    assert_eq!(
        drive(&mut walk),
        ResolveError::NoMatchingVersion { repo: REPO.to_string(), range: "=3.0.0".to_string() }
    );
    assert_eq!(walk.nodes(), 0);
    assert!(walk.locks().is_empty());

    let mut walk = install(vec![dep(Some("with_dependencies"))], vec![]);
    let mut event = Event::Resume;
    let mut loads = 0;
    let e = loop {
        event = match walk.step(event) {
            Err(e) => break e,
            Ok(Action::Proceed) => Event::Resume,
            Ok(Action::Probe { .. }) => Event::Probed(true),
            Ok(Action::Load { .. }) => {
                loads += 1;
                if loads == 1 {
                    Event::Loaded(Ok(manifest(&branch("with_dependencies"))))
                } else {
                    Event::Loaded(Err("gone".to_string()))
                }
            }
            Ok(other) => panic!("{other:?} is asked"),
        };
    };
    assert_eq!(
        e,
        ResolveError::ManifestError {
            dir: "WinstonMDP.githubOtherFiles.branch.default".to_string(),
            message: "gone".to_string()
        }
    );
    assert_eq!(walk.nodes(), 1);
    assert!(walk.locks().is_empty());
}

#[test]
fn walk_over_a_cycle_ends_within_its_bound() {
    let mut walk = install(vec![dep(Some("cyclic_1"))], vec![]);
    let mut event = Event::Resume;
    let mut steps: usize = 0;
    loop {
        steps += 1;
        event = match walk.step(event).unwrap() {
            Action::Proceed => Event::Resume,
            Action::Probe { .. } => Event::Probed(true),
            Action::Load { dir } => {
                let name = dir.rsplit('.').next().unwrap().to_string();
                Event::Loaded(Ok(manifest(&branch(&name))))
            }
            Action::Finish => break,
            other => panic!("{other:?} is asked"),
        };
    }
    // Three build units, one declaration to a manifest: three steps and five
    // for the declaration of the root, and for each of the nine pairs of
    // build units a descent of 1 * 7 + 1.
    assert_eq!(walk.nodes(), 3);
    assert!(steps <= 3 + 5 + 9 * 8);
    // Five manifests are walked, the root once and each of the two of the
    // cycle twice, with five steps each, and one step ends the walk.
    assert_eq!(steps, 5 * 5 + 1);
}
