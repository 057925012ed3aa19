use crack::graph::Visit;
use crack::text::{order_text, Order};
use crack::{
    default_interpreter, net_installer, with_stderr, BuildUnit, Checkout, DepGraph, GitCall,
    LockType, LockUnit, ResolveError, BUILD_FILE_NAME, CFG_FILE_NAME, LOCK_FILE_NAME,
};

fn unit(dir: &str, names: &[(&str, &str)]) -> Result<BuildUnit, ResolveError> {
    let names: Vec<(String, String)> =
        names.iter().map(|(n, d)| (n.to_string(), d.to_string())).collect();
    BuildUnit::new(dir.to_string(), &names)
}

fn strings(args: &[&str]) -> Vec<String> {
    args.iter().map(|a| a.to_string()).collect()
}

#[test]
fn names_of_a_unit_are_in_order() {
    let u = unit("root", &[("b", "2"), ("a", "1"), ("ab", "3"), ("", "0"), ("B", "4")]).unwrap();
    assert_eq!(u.dir(), "root");
    let names: Vec<(&str, &str)> =
        u.name_map().iter().map(|(n, d)| (n.as_str(), d.as_str())).collect();
    assert_eq!(names, vec![("", "0"), ("B", "4"), ("a", "1"), ("ab", "3"), ("b", "2")]);
}

#[test]
fn units_are_equal_by_value() {
    let one = unit("d", &[("x", "1"), ("y", "2")]).unwrap();
    let other = unit("d", &[("y", "2"), ("x", "1")]).unwrap();
    assert_eq!(one, other);
    assert_ne!(one, unit("d", &[("x", "1"), ("y", "3")]).unwrap());
    assert_ne!(one, unit("e", &[("x", "1"), ("y", "2")]).unwrap());
    assert_ne!(one, unit("d", &[("x", "1")]).unwrap());
}

#[test]
fn first_repeated_name_is_reported() {
    assert_eq!(
        unit("dir", &[("a", "1"), ("b", "2"), ("c", "3"), ("b", "4"), ("a", "5")]).unwrap_err(),
        ResolveError::NameCollision { dir: "dir".to_string(), name: "b".to_string() }
    );
    assert_eq!(
        unit("dir", &[("a", "1"), ("a", "1")]).unwrap_err(),
        ResolveError::NameCollision { dir: "dir".to_string(), name: "a".to_string() }
    );
}

#[test]
fn text_is_ordered_as_std_orders_strings() {
    let texts = ["", "a", "ab", "b", "B", "é", "z", "日本", "a\u{10ffff}", "aa", "\u{0}"];
    for x in texts {
        for y in texts {
            let expected = if x < y {
                Order::Before
            } else if x == y {
                Order::Same
            } else {
                Order::After
            };
            assert_eq!(order_text(x, y), expected, "{x:?} against {y:?}");
        }
    }
}

#[test]
fn graph_keeps_one_node_for_each_value_and_each_edge_once() {
    let mut graph = DepGraph::new();
    assert_eq!(graph.len(), 0);
    let root = graph.visit(unit("root", &[("a", "A")]).unwrap(), 0);
    assert_eq!((root.node, root.first, root.descend), (0, true, true));
    let a = graph.visit(unit("A", &[("b", "B")]).unwrap(), 0);
    assert_eq!((a.node, a.first, a.descend), (1, true, true));
    let b = graph.visit(unit("B", &[("a", "A")]).unwrap(), 1);
    assert_eq!((b.node, b.first, b.descend), (2, true, true));
    let Visit { node, first, descend } = graph.visit(unit("A", &[("b", "B")]).unwrap(), 2);
    assert_eq!((node, first, descend), (1, false, true));
    let again = graph.visit(unit("B", &[("a", "A")]).unwrap(), 1);
    assert_eq!((again.node, again.first, again.descend), (2, false, false));
    assert_eq!(graph.len(), 3);
    assert!(graph.room());
    let stages = graph.build_order();
    assert_eq!(stages.len(), 2);
    let mut cycle: Vec<&str> = stages[0].iter().map(|u| u.dir().as_str()).collect();
    cycle.sort();
    assert_eq!(cycle, vec!["A", "B"]);
    assert_eq!(stages[1], vec![unit("root", &[("a", "A")]).unwrap()]);
}

#[test]
fn stages_come_dependencies_first() {
    let mut graph = DepGraph::new();
    graph.visit(unit("root", &[]).unwrap(), 0);
    graph.visit(unit("a", &[]).unwrap(), 0);
    graph.visit(unit("b", &[]).unwrap(), 0);
    graph.visit(unit("c", &[]).unwrap(), 1);
    graph.visit(unit("c", &[]).unwrap(), 2);
    graph.visit(unit("d", &[]).unwrap(), 3);
    let stages = graph.build_order();
    let place = |dir: &str| stages.iter().position(|s| s.iter().any(|u| u.dir() == dir)).unwrap();
    assert_eq!(stages.len(), 5);
    assert!(stages.iter().all(|s| s.len() == 1));
    assert!(place("d") < place("c"));
    assert!(place("c") < place("a"));
    assert!(place("c") < place("b"));
    assert!(place("a") < place("root"));
    assert!(place("b") < place("root"));
    assert_eq!(place("root"), 4);
}

#[test]
fn commit_is_fetched_alone() {
    let lock = LockUnit { repo: "url".to_string(), lock_type: LockType::Commit("abc".to_string()) };
    let call = |args: &[&str]| GitCall { dir: "deps/x".to_string(), args: strings(args) };
    assert_eq!(
        net_installer("deps", "deps/x", &lock),
        Checkout {
            make_target: true,
            calls: vec![
                call(&["init", "-q"]),
                call(&["remote", "add", "origin", "url"]),
                call(&["fetch", "-q", "--depth=1", "origin", "abc"]),
                call(&["checkout", "-q", "FETCH_HEAD"]),
            ]
        }
    );
}

#[test]
fn branch_is_cloned() {
    let lock = |b: &str| LockUnit {
        repo: "url".to_string(),
        lock_type: LockType::Branch(b.to_string()),
    };
    assert_eq!(
        net_installer("deps", "deps/x", &lock("main")),
        Checkout {
            make_target: false,
            calls: vec![GitCall {
                dir: "deps".to_string(),
                args: strings(&["clone", "-q", "--depth=1", "url", "-b", "main", "deps/x"])
            }]
        }
    );
    assert_eq!(
        net_installer("deps", "deps/x", &lock("default")),
        Checkout {
            make_target: false,
            calls: vec![GitCall {
                dir: "deps".to_string(),
                args: strings(&["clone", "-q", "--depth=1", "url", "deps/x"])
            }]
        }
    );
}

#[test]
fn anything_on_the_error_stream_is_a_failure() {
    assert_eq!(with_stderr(String::new()), Ok(()));
    assert_eq!(with_stderr("fatal: no".to_string()), Err("fatal: no".to_string()));
}

#[test]
fn names_of_the_files() {
    assert_eq!(CFG_FILE_NAME, "crack.toml");
    assert_eq!(LOCK_FILE_NAME, "crack.lock");
    assert_eq!(BUILD_FILE_NAME, "crack.build");
    assert_eq!(default_interpreter(), "/bin/sanskrit");
}

#[test]
fn net_installer_t_1() {
    let plan = net_installer(
        "deps",
        "deps/hey_dir",
        &LockUnit {
            repo: "https://github.com/WinstonMDP/githubOtherFiles.git".to_string(),
            lock_type: LockType::Branch("b".to_string()),
        },
    );
    assert!(!plan.make_target);
    assert_eq!(
        plan.calls,
        vec![GitCall {
            dir: "deps".to_string(),
            args: strings(&[
                "clone",
                "-q",
                "--depth=1",
                "https://github.com/WinstonMDP/githubOtherFiles.git",
                "-b",
                "b",
                "deps/hey_dir"
            ])
        }]
    );
}

#[test]
fn net_installer_t_2() {
    let plan = net_installer(
        "deps",
        "deps/hey_dir",
        &LockUnit {
            repo: "https://github.com/WinstonMDP/githubOtherFiles.git".to_string(),
            lock_type: LockType::Commit("909896f5646b7fd9f058dcd21961b8d5599dec3b".to_string()),
        },
    );
    assert!(plan.make_target);
    assert_eq!(plan.calls.len(), 4);
    assert!(plan.calls.iter().all(|call| call.dir == "deps/hey_dir"));
    assert_eq!(
        plan.calls[2].args,
        strings(&[
            "fetch",
            "-q",
            "--depth=1",
            "origin",
            "909896f5646b7fd9f058dcd21961b8d5599dec3b"
        ])
    );
}

/// Builds the graph with the nodes `0..n` and the given edges, each node
/// reached from node 0, and checks what is promised of the build stages.
fn check_stages(n: usize, extra: &[(usize, usize)]) {
    let name = |i: usize| format!("u{i}");
    let mut edges: Vec<(usize, usize)> = vec![(0, 0)];
    let mut graph = DepGraph::new();
    graph.visit(unit("u0", &[]).unwrap(), 0);
    for i in 1..n {
        let from = (i * 7 + 3) % i;
        assert_eq!(graph.visit(unit(&name(i), &[]).unwrap(), from).node, i);
        edges.push((from, i));
    }
    for &(from, to) in extra {
        let visit = graph.visit(unit(&name(to), &[]).unwrap(), from);
        assert_eq!(visit.node, to);
        assert!(!visit.first);
        assert_eq!(visit.descend, !edges.contains(&(from, to)));
        if visit.descend {
            edges.push((from, to));
        }
    }
    assert_eq!(graph.len(), n);
    let mut reach = vec![vec![false; n]; n];
    for i in 0..n {
        reach[i][i] = true;
    }
    for &(a, b) in &edges {
        reach[a][b] = true;
    }
    for k in 0..n {
        for i in 0..n {
            for j in 0..n {
                if reach[i][k] && reach[k][j] {
                    reach[i][j] = true;
                }
            }
        }
    }
    let stages = graph.build_order();
    let mut stage_of = vec![usize::MAX; n];
    for (at, stage) in stages.iter().enumerate() {
        assert!(!stage.is_empty());
        for u in stage {
            let i: usize = u.dir()[1..].parse().unwrap();
            assert_eq!(stage_of[i], usize::MAX, "a node stands twice");
            stage_of[i] = at;
        }
    }
    for i in 0..n {
        assert!(stage_of[i] < stages.len(), "a node is missing");
        for j in 0..n {
            assert_eq!(stage_of[i] == stage_of[j], reach[i][j] && reach[j][i]);
        }
    }
    for &(a, b) in &edges {
        assert!(stage_of[b] <= stage_of[a]);
    }
    assert_eq!(stage_of[0], stages.len() - 1);
}

#[test]
fn stages_are_the_strongly_connected_components_in_build_order() {
    check_stages(1, &[]);
    check_stages(2, &[(1, 0)]);
    check_stages(3, &[(2, 1), (1, 2)]);
    check_stages(5, &[(4, 2), (2, 4), (3, 1)]);
    let mut seed: usize = 12345;
    for n in 2..9 {
        for round in 0..20 {
            let mut extra = vec![];
            for _ in 0..(round % (2 * n)) {
                seed = seed.wrapping_mul(6364136223846793005).wrapping_add(1442695040888963407);
                let from = (seed >> 33) % n;
                seed = seed.wrapping_mul(6364136223846793005).wrapping_add(1442695040888963407);
                let to = (seed >> 33) % n;
                extra.push((from, to));
            }
            check_stages(n, &extra);
        }
    }
}
