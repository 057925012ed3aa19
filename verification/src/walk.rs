//! The walk over the manifests of a project and of its dependencies.
//!
//! The walk is a state machine. Each call of [`Walk::step`] takes the answer
//! to what was asked last and returns what is asked next: the tags of a
//! repository, whether a directory exists, the checkout of a lock unit, or a
//! manifest. The caller does what is asked and nothing else; every decision
//! is made here.

use vstd::prelude::*;
use vstd::hash_map::StringHashMap;
use crate::error::{ErrorView, ResolveError};
use crate::graph::{is_scc_order, scc_order, stage_views, DepGraph, GraphView};
use crate::model::{lock_views, texts, Cfg, Dep, DepType, LockUnit, LockView};
use crate::naming::{dep_dir, dep_dir_spec};
use crate::resolve::{enabled, is_enabled, lock_spec, range_of, resolve};
use crate::unit::{
    first_repeat_at,
    has_repeat,
    lemma_sorted_names_exist,
    pairs,
    unit_of,
    BuildUnit,
    UnitView,
};
use crate::versions::{
    all_valid,
    ascend,
    sort_tags,
    sorted_tags,
    tag_views,
    TagView,
    VersionTag,
};

verus! {

/// What the caller reports to the walk.
#[derive(Debug)]
pub enum Event {
    /// Nothing was asked: the walk goes on.
    Resume,
    /// The tags of the repository, or why they could not be listed.
    Tags(Result<Vec<VersionTag>, String>),
    /// Whether the directory exists.
    Probed(bool),
    /// The lock unit was checked out, or why it could not be.
    Installed(Result<(), String>),
    /// The manifest in the directory, or why it could not be read.
    Loaded(Result<Cfg, String>),
}

/// What the walk asks of the caller.
#[derive(Debug, PartialEq, Eq)]
pub enum Action {
    /// Nothing: answer with [`Event::Resume`].
    Proceed,
    /// List the tags of the repository: answer with [`Event::Tags`].
    ListTags { repo: String },
    /// Say whether the directory exists: answer with [`Event::Probed`].
    Probe { dir: String },
    /// Check the lock unit out into the directory: answer with
    /// [`Event::Installed`].
    Install { dir: String, lock: LockUnit },
    /// Read the manifest in the directory: answer with [`Event::Loaded`].
    Load { dir: String },
    /// The walk is over.
    Finish,
}

/// The value of an [`Action`].
pub enum ActionView {
    Proceed,
    ListTags { repo: Seq<char> },
    Probe { dir: Seq<char> },
    Install { dir: Seq<char>, lock: LockView },
    Load { dir: Seq<char> },
    Finish,
}

impl View for Action {
    type V = ActionView;

    open spec fn view(&self) -> ActionView {
        match *self {
            Action::Proceed => ActionView::Proceed,
            Action::ListTags { repo } => ActionView::ListTags { repo: repo@ },
            Action::Probe { dir } => ActionView::Probe { dir: dir@ },
            Action::Install { dir, lock } => ActionView::Install { dir: dir@, lock: lock@ },
            Action::Load { dir } => ActionView::Load { dir: dir@ },
            Action::Finish => ActionView::Finish,
        }
    }
}

/// The value of what a step returns.
pub open spec fn outcome(r: Result<Action, ResolveError>) -> Result<ActionView, ErrorView> {
    match r {
        Ok(action) => Ok(action@),
        Err(e) => Err(e@),
    }
}

/// A manifest that is to be walked: its directory, the lock unit that was
/// checked out there (none for the root), its declarations and the flags
/// that are switched on in it.
pub struct JobView {
    pub dir: Seq<char>,
    pub lock: Option<LockView>,
    pub deps: Seq<Dep>,
    pub flags: Seq<Seq<char>>,
}

/// A manifest that is to be walked, with the node of the manifest that
/// declared it.
pub struct TaskView {
    pub job: JobView,
    pub prev: usize,
}

/// The manifest in hand: its declarations up to `next` are done, `names`
/// holds a name and a directory for each that counted, and `children` the
/// manifest of each.
pub struct LevelView {
    pub job: JobView,
    pub prev: usize,
    pub next: int,
    pub names: Seq<(Seq<char>, Seq<char>)>,
    pub children: Seq<JobView>,
}

/// What the walk waits for.
pub enum PhaseView {
    /// For [`Event::Resume`].
    Idle,
    /// For the tags of the repository of the declaration in hand.
    Tags,
    /// For word whether `dir`, the directory of `lock`, exists.
    Probing { lock: LockView, dir: Seq<char> },
    /// For the checkout of `lock` into `dir`.
    Installing { lock: LockView, dir: Seq<char> },
    /// For the manifest in `dir`.
    Loading { lock: LockView, dir: Seq<char> },
    /// For nothing: the walk is over.
    Finished,
    /// For nothing: the walk has failed.
    Failed,
}

/// The value of a [`Walk`].
pub struct WalkView {
    /// The build graph so far.
    pub graph: GraphView,
    /// The lock units of the nodes, in the order in which the nodes were
    /// made.
    pub locks: Seq<LockView>,
    /// The tags of the repositories that were listed, sorted.
    pub cache: Map<Seq<char>, Seq<TagView>>,
    /// The manifests still to be walked, the next one last.
    pub todo: Seq<TaskView>,
    /// The manifest in hand.
    pub level: Option<LevelView>,
    pub phase: PhaseView,
}

/// The place of the first declaration from `from` on that counts under
/// `flags`; the number of declarations where none does.
pub open spec fn skip_gated(deps: Seq<Dep>, flags: Seq<Seq<char>>, from: int) -> int
    decreases deps.len() - from,
{
    if from < 0 || from >= deps.len() {
        deps.len() as int
    } else if enabled(deps[from], flags) {
        from
    } else {
        skip_gated(deps, flags, from + 1)
    }
}

/// The name under which a manifest refers to a dependency: the declared one,
/// or the one that the dependency gives itself.
pub open spec fn name_of(dep: Dep, own: Seq<char>) -> Seq<char> {
    match dep.name {
        Some(name) => name@,
        None => own,
    }
}

/// The flags that a declaration switches on in the dependency's manifest.
pub open spec fn flags_of(dep: Dep) -> Seq<Seq<char>> {
    match dep.options {
        Some(options) => texts(options@),
        None => Seq::empty(),
    }
}

/// The manifests of `children` as tasks declared by the node `prev`.
pub open spec fn tasks(children: Seq<JobView>, prev: usize) -> Seq<TaskView> {
    Seq::new(children.len(), |i: int| TaskView { job: children[i], prev })
}

/// Name of the directory that stands for the project itself.
pub open spec fn root_dir() -> Seq<char> {
    seq!['r', 'o', 'o', 't']
}

/// The directory of the manifest is the directory of its lock unit.
pub open spec fn job_named(job: JobView) -> bool {
    job.lock is Some ==> dep_dir_spec(job.lock->0) == Some(job.dir)
}

/// Some build unit of the graph stands in the directory of the lock unit.
pub open spec fn lock_has_unit(graph: GraphView, lock: LockView) -> bool {
    exists|i: int|
        0 <= i < graph.units.len() && dep_dir_spec(lock) == Some(#[trigger] graph.units[i].dir)
}

/// Some lock unit names the directory of the build unit.
pub open spec fn unit_has_lock(locks: Seq<LockView>, unit: UnitView) -> bool {
    exists|k: int| 0 <= k < locks.len() && dep_dir_spec(#[trigger] locks[k]) == Some(unit.dir)
}

/// Under some name the build unit refers to the directory `dir`.
pub open spec fn declares(unit: UnitView, dir: Seq<char>) -> bool {
    exists|k: int| 0 <= k < unit.names.len() && (#[trigger] unit.names[k]).1 == dir
}

/// An edge leads from the node `from` to a build unit in the directory
/// `dir`.
pub open spec fn has_edge_to(graph: GraphView, from: usize, dir: Seq<char>) -> bool {
    exists|e: int|
        0 <= e < graph.edges.len() && (#[trigger] graph.edges[e]).0 == from && graph.edges[e].1
            < graph.units.len() && graph.units[graph.edges[e].1 as int].dir == dir
}

impl WalkView {
    /// A manifest in the directory `dir`, declared by the node `from`, is in
    /// hand or waits to be walked.
    pub open spec fn waits_for(self, from: usize, dir: Seq<char>) -> bool {
        ||| exists|i: int|
            0 <= i < self.todo.len() && (#[trigger] self.todo[i]).prev == from
                && self.todo[i].job.dir == dir
        ||| self.level is Some && self.level->0.prev == from && self.level->0.job.dir == dir
    }

    /// The graph is the graph of what the build units declare. Every edge,
    /// but the one from the root to itself, leads from a build unit to a
    /// build unit in a directory that the first refers to. And for every
    /// directory that a build unit refers to, an edge leads from the build
    /// unit to a build unit in that directory, or a manifest in that
    /// directory is still to be walked for it.
    pub open spec fn wired(self) -> bool {
        &&& forall|e: int|
            0 <= e < self.graph.edges.len() ==> (#[trigger] self.graph.edges[e]) == (0usize, 0usize)
                || declares(
                self.graph.units[self.graph.edges[e].0 as int],
                self.graph.units[self.graph.edges[e].1 as int].dir,
            )
        &&& forall|a: usize, k: int|
            a < self.graph.units.len() && 0 <= k < self.graph.units[a as int].names.len()
                ==> has_edge_to(self.graph, a, (#[trigger] self.graph.units[a as int].names[k]).1)
                || self.waits_for(a, self.graph.units[a as int].names[k].1)
    }

    /// The manifests that wait were declared: once the project itself is in
    /// the graph, the build unit of the node that a task names refers to the
    /// directory of the task. And in the manifest in hand each name stands
    /// for the directory of the dependency that was read with it.
    pub open spec fn tasks_declared(self) -> bool {
        &&& self.graph.units.len() > 0 ==> {
            &&& forall|i: int|
                0 <= i < self.todo.len() ==> declares(
                    self.graph.units[(#[trigger] self.todo[i]).prev as int],
                    self.todo[i].job.dir,
                )
            &&& self.level is Some ==> declares(
                self.graph.units[self.level->0.prev as int],
                self.level->0.job.dir,
            )
        }
        &&& self.level is Some ==> {
            &&& self.level->0.names.len() == self.level->0.children.len()
            &&& self.level->0.children.len() <= self.level->0.next
            &&& forall|k: int|
                0 <= k < self.level->0.names.len() ==> (#[trigger] self.level->0.names[k]).1
                    == self.level->0.children[k].dir
        }
    }

    /// The lock units are those of the build units: each lock unit names the
    /// directory of a build unit of the graph, and each build unit but the
    /// first, which is the project itself, stands in the directory of a lock
    /// unit.
    pub open spec fn locks_match(self) -> bool {
        &&& forall|k: int|
            0 <= k < self.locks.len() ==> lock_has_unit(self.graph, #[trigger] self.locks[k])
        &&& forall|i: int|
            1 <= i < self.graph.units.len() ==> unit_has_lock(
                self.locks,
                #[trigger] self.graph.units[i],
            )
    }

    /// Every manifest that waits stands in the directory of its lock unit,
    /// and once the project itself is in the graph every manifest that waits
    /// has a lock unit.
    pub open spec fn jobs_named(self) -> bool {
        &&& forall|i: int|
            0 <= i < self.todo.len() ==> job_named((#[trigger] self.todo[i]).job) && (
            self.graph.units.len() > 0 ==> self.todo[i].job.lock is Some)
        &&& self.level is Some ==> {
            &&& job_named(self.level->0.job)
            &&& self.graph.units.len() > 0 ==> self.level->0.job.lock is Some
            &&& self.graph.units.len() == 0 ==> self.todo.len() == 0
            &&& forall|k: int|
                0 <= k < self.level->0.children.len() ==> job_named(
                    #[trigger] self.level->0.children[k],
                ) && self.level->0.children[k].lock is Some
        }
        &&& match self.phase {
            PhaseView::Probing { lock, dir } => dep_dir_spec(lock) == Some(dir),
            PhaseView::Installing { lock, dir } => dep_dir_spec(lock) == Some(dir),
            PhaseView::Loading { lock, dir } => dep_dir_spec(lock) == Some(dir),
            _ => true,
        }
    }

    /// The tags that are kept name versions and stand in ascending order of
    /// them, so that the last tag that a requirement admits is one of the
    /// greatest version that it admits.
    pub open spec fn cache_sorted(self) -> bool {
        forall|repo: Seq<char>| #[trigger]
            self.cache.contains_key(repo) ==> all_valid(self.cache[repo]) && ascend(
                self.cache[repo],
            )
    }

    /// The walk before its first step: the project's own declarations are
    /// the one manifest to walk.
    pub open spec fn start(deps: Seq<Dep>, flags: Seq<Seq<char>>) -> WalkView {
        WalkView {
            graph: GraphView { units: Seq::empty(), edges: Seq::empty() },
            locks: Seq::empty(),
            cache: Map::empty(),
            todo: seq![
                TaskView { job: JobView { dir: root_dir(), lock: None, deps, flags }, prev: 0 },
            ],
            level: None,
            phase: PhaseView::Idle,
        }
    }

    /// The event answers what the walk waits for.
    pub open spec fn awaits(self, event: Event) -> bool {
        match (self.phase, event) {
            (PhaseView::Idle, Event::Resume) => true,
            (PhaseView::Tags, Event::Tags(_)) => true,
            (PhaseView::Probing { .. }, Event::Probed(_)) => true,
            (PhaseView::Installing { .. }, Event::Installed(_)) => true,
            (PhaseView::Loading { .. }, Event::Loaded(_)) => true,
            _ => false,
        }
    }

    /// The declaration in hand.
    pub open spec fn dep(self) -> Dep {
        self.level->0.job.deps[self.level->0.next]
    }

    /// The walk after a failure: the manifest in hand is given up, and
    /// nothing more is waited for. The graph, the lock units, the tags that
    /// are kept and the manifests that wait stay as they are.
    pub open spec fn failed(self) -> WalkView {
        WalkView { phase: PhaseView::Failed, level: None, ..self }
    }

    /// Takes the declaration in hand up: asks for the tags of its
    /// repository where it is pinned by a requirement and they are not
    /// known; else resolves it to its lock unit, names the directory and
    /// asks whether that exists.
    pub open spec fn take_up(self) -> (WalkView, Result<ActionView, ErrorView>) {
        let dep = self.dep();
        if range_of(dep) is Some && !self.cache.contains_key(dep.repo@) {
            (
                WalkView { phase: PhaseView::Tags, ..self },
                Ok(ActionView::ListTags { repo: dep.repo@ }),
            )
        } else {
            let tags = if range_of(dep) is Some {
                self.cache[dep.repo@]
            } else {
                Seq::empty()
            };
            match lock_spec(dep, tags) {
                None => (
                    self.failed(),
                    Err(
                        ErrorView::NoMatchingVersion { repo: dep.repo@, range: range_of(dep)->0 },
                    ),
                ),
                Some(lock) => match dep_dir_spec(lock) {
                    None => (self.failed(), Err(ErrorView::InvalidRepoUrl { repo: dep.repo@ })),
                    Some(dir) => (
                        WalkView { phase: PhaseView::Probing { lock, dir }, ..self },
                        Ok(ActionView::Probe { dir }),
                    ),
                },
            }
        }
    }

    /// Closes the manifest in hand, all of whose declarations are done: its
    /// build unit is met as a dependency of the node that declared it. A
    /// build unit that was not in the graph brings its lock unit, and a new
    /// edge brings the manifests of the dependencies, the first of them to
    /// be walked next.
    pub open spec fn close(self) -> (WalkView, Result<ActionView, ErrorView>) {
        let level = self.level->0;
        if has_repeat(level.names) {
            (
                self.failed(),
                Err(
                    ErrorView::NameCollision {
                        dir: level.job.dir,
                        name: level.names[first_repeat_at(level.names)].0,
                    },
                ),
            )
        } else {
            let unit = unit_of(level.job.dir, level.names);
            let graph = self.graph.visit(unit, level.prev);
            let first = !self.graph.units.contains(unit);
            let node = graph.units.index_of(unit) as usize;
            let descend = !self.graph.edges.contains((level.prev, node));
            (
                WalkView {
                    graph,
                    locks: if first && level.job.lock is Some {
                        self.locks.push(level.job.lock->0)
                    } else {
                        self.locks
                    },
                    todo: if descend {
                        self.todo + tasks(level.children, node).reverse()
                    } else {
                        self.todo
                    },
                    level: None,
                    ..self
                },
                Ok(ActionView::Proceed),
            )
        }
    }

    /// The walk goes on: with no manifest in hand it takes the next one, or
    /// ends where none is left; with one in hand it passes over the
    /// declarations that do not count and takes the next one up, or closes
    /// the manifest where none is left.
    pub open spec fn resume(self) -> (WalkView, Result<ActionView, ErrorView>) {
        match self.level {
            None => if self.todo.len() == 0 {
                (WalkView { phase: PhaseView::Finished, ..self }, Ok(ActionView::Finish))
            } else {
                let task = self.todo.last();
                (
                    WalkView {
                        todo: self.todo.drop_last(),
                        level: Some(
                            LevelView {
                                job: task.job,
                                prev: task.prev,
                                next: 0,
                                names: Seq::empty(),
                                children: Seq::empty(),
                            },
                        ),
                        ..self
                    },
                    Ok(ActionView::Proceed),
                )
            },
            Some(level) => {
                let next = skip_gated(level.job.deps, level.job.flags, level.next);
                let at = WalkView { level: Some(LevelView { next, ..level }), ..self };
                if next < level.job.deps.len() {
                    at.take_up()
                } else {
                    at.close()
                }
            },
        }
    }

    /// The tags were listed: they are sorted and kept, and the declaration
    /// in hand is taken up again.
    pub open spec fn tags_listed(self, listed: Seq<TagView>) -> (
        WalkView,
        Result<ActionView, ErrorView>,
    ) {
        WalkView {
            cache: self.cache.insert(self.dep().repo@, sorted_tags(listed)),
            phase: PhaseView::Idle,
            ..self
        }.take_up()
    }

    /// Word came whether the directory exists: a directory that exists is
    /// read, another is checked out first.
    pub open spec fn probed(self, present: bool) -> (WalkView, Result<ActionView, ErrorView>) {
        let lock = self.phase->Probing_lock;
        let dir = self.phase->Probing_dir;
        if present {
            (
                WalkView { phase: PhaseView::Loading { lock, dir }, ..self },
                Ok(ActionView::Load { dir }),
            )
        } else {
            (
                WalkView { phase: PhaseView::Installing { lock, dir }, ..self },
                Ok(ActionView::Install { dir, lock }),
            )
        }
    }

    /// The checkout ended: after a success the manifest is read.
    pub open spec fn installed(self, done: Result<(), String>) -> (
        WalkView,
        Result<ActionView, ErrorView>,
    ) {
        let lock = self.phase->Installing_lock;
        let dir = self.phase->Installing_dir;
        match done {
            Ok(_) => (
                WalkView { phase: PhaseView::Loading { lock, dir }, ..self },
                Ok(ActionView::Load { dir }),
            ),
            Err(message) => (
                self.failed(),
                Err(ErrorView::InstallFailure { lock, message: message@ }),
            ),
        }
    }

    /// The manifest was read: the dependency gets its name, its own
    /// declarations wait with the flags that the declaration switches on,
    /// and the declaration is done. The declarations that the dependency
    /// needs for its own development are not followed.
    pub open spec fn loaded(self, read: Result<Cfg, String>) -> (
        WalkView,
        Result<ActionView, ErrorView>,
    ) {
        let lock = self.phase->Loading_lock;
        let dir = self.phase->Loading_dir;
        let level = self.level->0;
        let dep = self.dep();
        match read {
            Ok(cfg) => (
                WalkView {
                    level: Some(
                        LevelView {
                            next: level.next + 1,
                            names: level.names.push((name_of(dep, cfg.name@), dir)),
                            children: level.children.push(
                                JobView {
                                    dir,
                                    lock: Some(lock),
                                    deps: cfg.deps@,
                                    flags: flags_of(dep),
                                },
                            ),
                            ..level
                        },
                    ),
                    phase: PhaseView::Idle,
                    ..self
                },
                Ok(ActionView::Proceed),
            ),
            Err(message) => (
                self.failed(),
                Err(ErrorView::ManifestError { dir, message: message@ }),
            ),
        }
    }

    /// The walk after `event`, and what it asks next or why it fails.
    pub open spec fn step(self, event: Event) -> (WalkView, Result<ActionView, ErrorView>) {
        match event {
            Event::Resume => self.resume(),
            Event::Tags(Ok(listed)) => self.tags_listed(tag_views(listed@)),
            Event::Tags(Err(message)) => (
                self.failed(),
                Err(ErrorView::IoError { message: message@ }),
            ),
            Event::Probed(present) => self.probed(present),
            Event::Installed(done) => self.installed(done),
            Event::Loaded(read) => self.loaded(read),
        }
    }

    /// What holds of every walk: the graph is sound, the tasks name nodes of
    /// the graph, while the walk waits for the caller a declaration that
    /// counts is in hand, and the first build unit to enter the graph is that
    /// of the project itself.
    pub open spec fn inv(self) -> bool {
        &&& self.graph.sound()
        &&& forall|i: int|
            0 <= i < self.todo.len() ==> (#[trigger] self.todo[i]).prev < self.graph.units.len()
                || self.todo[i].prev == 0
        &&& self.level is Some ==> {
            &&& self.level->0.prev < self.graph.units.len() || self.level->0.prev == 0
            &&& 0 <= self.level->0.next <= self.level->0.job.deps.len()
        }
        &&& (self.phase is Tags || self.phase is Probing || self.phase is Installing
            || self.phase is Loading) ==> {
            &&& self.level is Some
            &&& self.level->0.next < self.level->0.job.deps.len()
            &&& enabled(self.dep(), self.level->0.job.flags)
        }
        &&& self.phase is Finished ==> self.level is None && self.todo.len() == 0
        &&& self.graph.units.len() > 0 ==> self.graph.units[0].dir == root_dir()
        &&& self.locks_match()
        &&& self.jobs_named()
        &&& self.wired()
        &&& self.tasks_declared()
        &&& self.graph.units.len() == 0 ==> {
            &&& self.level is None ==> self.todo.len() == 1
            &&& self.level is Some ==> self.level->0.job.dir == root_dir()
            &&& forall|i: int|
                0 <= i < self.todo.len() ==> (#[trigger] self.todo[i]).job.dir == root_dir()
        }
    }
}

/// The step to `post` that returned `r` is the one that `spec` describes:
/// the same walk afterwards, and the same action or the same failure.
pub open spec fn follows(
    post: WalkView,
    r: Result<Action, ResolveError>,
    spec: (WalkView, Result<ActionView, ErrorView>),
) -> bool {
    post == spec.0 && outcome(r) == spec.1
}

impl WalkView {
    /// Taking a declaration up keeps the invariant.
    pub proof fn lemma_take_up(self)
        requires
            self.inv(),
            self.phase is Idle,
            self.level is Some,
            self.level->0.next < self.level->0.job.deps.len(),
            enabled(self.dep(), self.level->0.job.flags),
            self.take_up().1 is Ok,
        ensures
            self.take_up().0.inv(),
    {
    }

    /// Keeping the tags of a repository keeps the invariant.
    pub proof fn lemma_keep_tags(self, repo: Seq<char>, tags: Seq<TagView>)
        requires
            self.inv(),
            self.phase is Tags,
        ensures
            (WalkView {
                cache: self.cache.insert(repo, tags),
                phase: PhaseView::Idle,
                ..self
            }).inv(),
    {
    }

    /// Passing over declarations that do not count keeps the invariant.
    pub proof fn lemma_pass_over(self)
        requires
            self.inv(),
            self.phase is Idle,
            self.level is Some,
        ensures
            ({
                let level = self.level->0;
                let next = skip_gated(level.job.deps, level.job.flags, level.next);
                (WalkView { level: Some(LevelView { next, ..level }), ..self }).inv()
            }),
    {
        let level = self.level->0;
        lemma_skip_gated(level.job.deps, level.job.flags, level.next);
    }

    /// Closing a manifest keeps the invariant.
    pub proof fn lemma_close(self)
        requires
            self.inv(),
            self.phase is Idle,
            self.level is Some,
            self.graph.units.len() < u32::MAX,
            self.close().1 is Ok,
        ensures
            self.close().0.inv(),
    {
        let level = self.level->0;
        let unit = unit_of(level.job.dir, level.names);
        let post = self.close().0;
        self.graph.lemma_visit(unit, level.prev);
        let node = post.graph.units.index_of(unit);
        let first = !self.graph.units.contains(unit);
        let turned = tasks(level.children, node as usize).reverse();
        assert forall|i: int| 0 <= i < post.todo.len() implies {
            &&& (#[trigger] post.todo[i]).prev < post.graph.units.len() || post.todo[i].prev == 0
            &&& job_named(post.todo[i].job)
            &&& post.todo[i].job.lock is Some
        } by {
            if i < self.todo.len() {
                assert(post.todo[i] == self.todo[i]);
            } else {
                let k = level.children.len() - 1 - (i - self.todo.len());
                assert(post.todo[i] == turned[i - self.todo.len()]);
                assert(turned[i - self.todo.len()] == tasks(level.children, node as usize)[k]);
                assert(post.todo[i].job == level.children[k]);
            }
        }
        assert forall|k: int| 0 <= k < post.locks.len() implies lock_has_unit(
            post.graph,
            #[trigger] post.locks[k],
        ) by {
            if k < self.locks.len() {
                assert(post.locks[k] == self.locks[k]);
                assert(lock_has_unit(self.graph, self.locks[k]));
                let i = choose|i: int|
                    0 <= i < self.graph.units.len() && dep_dir_spec(self.locks[k]) == Some(
                        #[trigger] self.graph.units[i].dir,
                    );
                assert(post.graph.units[i] == self.graph.units[i]);
            } else {
                assert(post.locks[k] == level.job.lock->0);
                assert(post.graph.units[node].dir == level.job.dir);
            }
        }
        assert forall|i: int| 1 <= i < post.graph.units.len() implies unit_has_lock(
            post.locks,
            #[trigger] post.graph.units[i],
        ) by {
            if i < self.graph.units.len() {
                assert(post.graph.units[i] == self.graph.units[i]);
                assert(unit_has_lock(self.locks, self.graph.units[i]));
                let k = choose|k: int|
                    0 <= k < self.locks.len() && dep_dir_spec(#[trigger] self.locks[k]) == Some(
                        self.graph.units[i].dir,
                    );
                assert(post.locks[k] == self.locks[k]);
            } else {
                assert(first);
                assert(post.graph.units[i] == unit);
                assert(level.job.lock is Some);
                assert(post.locks[self.locks.len() as int] == level.job.lock->0);
            }
        }
        if self.graph.units.len() > 0 {
            assert(post.graph.units[0] == self.graph.units[0]);
        } else {
            assert(post.graph.units[0] == unit);
        }
        lemma_sorted_names_exist(level.names);
        let old_units = self.graph.units;
        let old_edges = self.graph.edges;
        let units = post.graph.units;
        let edges = post.graph.edges;
        assert(units[node] == unit);
        let edge = (level.prev, node as usize);
        assert(edges.contains(edge));
        let at = choose|e: int| 0 <= e < edges.len() && edges[e] == edge;
        // the children of the manifest are declared by its build unit
        assert forall|k: int| 0 <= k < level.children.len() implies declares(
            unit,
            #[trigger] level.children[k].dir,
        ) by {
            assert(unit.names.contains(level.names[k]));
            let q = choose|q: int| 0 <= q < unit.names.len() && unit.names[q] == level.names[k];
            assert(unit.names[q].1 == level.children[k].dir);
        }
        assert forall|i: int| 0 <= i < post.todo.len() implies declares(
            units[(#[trigger] post.todo[i]).prev as int],
            post.todo[i].job.dir,
        ) by {
            if i < self.todo.len() {
                assert(post.todo[i] == self.todo[i]);
                assert(units[self.todo[i].prev as int] == old_units[self.todo[i].prev as int]);
            } else {
                let k = level.children.len() - 1 - (i - self.todo.len());
                assert(post.todo[i] == turned[i - self.todo.len()]);
                assert(turned[i - self.todo.len()] == tasks(level.children, node as usize)[k]);
                assert(post.todo[i].job == level.children[k]);
                assert(post.todo[i].prev == node);
            }
        }
        // every edge is declared
        assert forall|e: int| 0 <= e < edges.len() implies (#[trigger] edges[e]) == (0usize, 0usize)
            || declares(units[edges[e].0 as int], units[edges[e].1 as int].dir) by {
            if e < old_edges.len() {
                assert(edges[e] == old_edges[e]);
                assert(units[old_edges[e].0 as int] == old_units[old_edges[e].0 as int]);
                assert(units[old_edges[e].1 as int] == old_units[old_edges[e].1 as int]);
            } else {
                assert(edges[e] == edge);
                if old_units.len() > 0 {
                    assert(units[level.prev as int] == old_units[level.prev as int]);
                    assert(unit.dir == level.job.dir);
                }
            }
        }
        // every directory that a build unit refers to is reached or waited for
        assert forall|a: usize, k: int|
            a < units.len() && 0 <= k < units[a as int].names.len() implies has_edge_to(
            post.graph,
            a,
            (#[trigger] units[a as int].names[k]).1,
        ) || post.waits_for(a, units[a as int].names[k].1) by {
            let dir = units[a as int].names[k].1;
            if a < old_units.len() {
                assert(units[a as int] == old_units[a as int]);
                assert(old_units[a as int].names[k].1 == dir);
                if has_edge_to(self.graph, a, dir) {
                    let e = choose|e: int|
                        0 <= e < old_edges.len() && (#[trigger] old_edges[e]).0 == a
                            && old_edges[e].1 < old_units.len()
                            && old_units[old_edges[e].1 as int].dir == dir;
                    assert(edges[e] == old_edges[e]);
                    assert(units[old_edges[e].1 as int] == old_units[old_edges[e].1 as int]);
                    assert(has_edge_to(post.graph, a, dir));
                } else if self.level->0.prev == a && self.level->0.job.dir == dir {
                    assert(edges[at].0 == a);
                    assert(units[edges[at].1 as int].dir == dir);
                    assert(has_edge_to(post.graph, a, dir));
                } else {
                    let i = choose|i: int|
                        0 <= i < self.todo.len() && (#[trigger] self.todo[i]).prev == a
                            && self.todo[i].job.dir == dir;
                    assert(post.todo[i] == self.todo[i]);
                    assert(post.waits_for(a, dir));
                }
            } else {
                assert(first);
                assert(units[a as int] == unit);
                assert(level.names.contains(unit.names[k]));
                let m = choose|m: int|
                    0 <= m < level.names.len() && level.names[m] == unit.names[k];
                assert(level.children[m].dir == dir);
                let i = self.todo.len() + (level.children.len() - 1 - m);
                assert(post.todo[i] == turned[level.children.len() - 1 - m]);
                assert(turned[level.children.len() - 1 - m] == tasks(
                    level.children,
                    node as usize,
                )[m]);
                assert(post.todo[i].prev == a && post.todo[i].job.dir == dir);
                assert(post.waits_for(a, dir));
            }
        }
    }

    /// In the graph of a walk that is over an edge leads from every build
    /// unit to a build unit in each directory that it refers to, and every
    /// edge but the one from the root to itself is of that kind: the graph
    /// holds the dependencies that the build units declare, and no others.
    pub proof fn lemma_finished(self)
        requires
            self.inv(),
            self.phase is Finished,
        ensures
            forall|a: usize, k: int|
                a < self.graph.units.len() && 0 <= k < self.graph.units[a as int].names.len()
                    ==> has_edge_to(
                    self.graph,
                    a,
                    (#[trigger] self.graph.units[a as int].names[k]).1,
                ),
            forall|e: int|
                0 <= e < self.graph.edges.len() ==> (#[trigger] self.graph.edges[e]) == (
                    0usize,
                    0usize,
                ) || declares(
                    self.graph.units[self.graph.edges[e].0 as int],
                    self.graph.units[self.graph.edges[e].1 as int].dir,
                ),
            self.locks_match(),
    {
    }

    /// Going on keeps the invariant.
    pub proof fn lemma_resume(self)
        requires
            self.inv(),
            self.phase is Idle,
            self.graph.units.len() < u32::MAX,
            self.resume().1 is Ok,
        ensures
            self.resume().0.inv(),
    {
        match self.level {
            None => {
                if self.todo.len() > 0 {
                    let post = self.resume().0;
                    assert(self.todo[self.todo.len() - 1] == self.todo.last());
                    assert forall|i: int| 0 <= i < post.todo.len() implies post.todo[i]
                        == self.todo[i] by {}
                }
            },
            Some(level) => {
                lemma_skip_gated(level.job.deps, level.job.flags, level.next);
                let next = skip_gated(level.job.deps, level.job.flags, level.next);
                let at = WalkView { level: Some(LevelView { next, ..level }), ..self };
                if next < level.job.deps.len() {
                    at.lemma_take_up();
                } else {
                    at.lemma_close();
                }
            },
        }
    }

    /// Every step that does not fail keeps the invariant.
    pub proof fn lemma_step(self, event: Event)
        requires
            self.inv(),
            self.awaits(event),
            self.graph.units.len() < u32::MAX,
            self.step(event).1 is Ok,
        ensures
            self.step(event).0.inv(),
    {
        match event {
            Event::Resume => {
                self.lemma_resume();
            },
            Event::Tags(Ok(listed)) => {
                let kept = WalkView {
                    cache: self.cache.insert(self.dep().repo@, sorted_tags(tag_views(listed@))),
                    phase: PhaseView::Idle,
                    ..self
                };
                kept.lemma_take_up();
            },
            Event::Tags(Err(_)) => {},
            Event::Probed(_) => {},
            Event::Installed(_) => {},
            Event::Loaded(Ok(cfg)) => {
                let level = self.level->0;
                let post = self.step(event).0;
                let after = post.level->0;
                assert forall|k: int| 0 <= k < after.children.len() implies job_named(
                    #[trigger] after.children[k],
                ) && after.children[k].lock is Some by {
                    if k < level.children.len() {
                        assert(after.children[k] == level.children[k]);
                    }
                }
            },
            Event::Loaded(Err(_)) => {},
        }
    }
}

/// A step that fails registers nothing: it leaves the graph, the lock units
/// and the manifests that wait as they were, and the walk has failed. The
/// tags that are kept are as they were too, but for the tags that the failing
/// step itself was given for the repository of the declaration in hand.
pub proof fn lemma_failure(walk: WalkView, event: Event)
    requires
        walk.step(event).1 is Err,
    ensures
        walk.step(event).0.phase is Failed,
        walk.step(event).0.level is None,
        walk.step(event).0.graph == walk.graph,
        walk.step(event).0.locks == walk.locks,
        walk.step(event).0.todo == walk.todo,
        walk.step(event).0.cache == match event {
            Event::Tags(Ok(listed)) => walk.cache.insert(
                walk.dep().repo@,
                sorted_tags(tag_views(listed@)),
            ),
            _ => walk.cache,
        },
{
}

/// A directory is probed before anything is checked out, and only a
/// directory that does not exist is checked out.
pub proof fn lemma_install_only_absent(walk: WalkView, event: Event)
    requires
        walk.awaits(event),
        walk.step(event).1 matches Ok(ActionView::Install { .. }),
    ensures
        event == Event::Probed(false),
{
    match event {
        Event::Resume => {
            match walk.level {
                None => {},
                Some(level) => {},
            }
        },
        _ => {},
    }
}

/// How many steps a manifest that waits asks for at most before it is
/// closed: one to take it, five for each declaration, one to close it.
pub open spec fn task_weight(task: TaskView) -> int {
    2 + 5 * (task.job.deps.len() as int)
}

/// The steps that the manifests that wait ask for at most.
pub open spec fn todo_weight(todo: Seq<TaskView>) -> int
    decreases todo.len(),
{
    if todo.len() == 0 {
        0
    } else {
        todo_weight(todo.drop_last()) + task_weight(todo.last())
    }
}

/// How many of the five steps of the declaration in hand are made.
pub open spec fn phase_progress(phase: PhaseView) -> int {
    match phase {
        PhaseView::Tags => 1,
        PhaseView::Probing { .. } => 2,
        PhaseView::Installing { .. } => 3,
        PhaseView::Loading { .. } => 4,
        _ => 0,
    }
}

impl WalkView {
    /// The steps that the walk makes at most before it ends or adds an edge
    /// to the graph: those of the manifests that wait, those of the
    /// manifest in hand, and the last one.
    pub open spec fn weight(self) -> int {
        todo_weight(self.todo) + match self.level {
            Some(level) => 1 + 5 * (level.job.deps.len() - level.next) - phase_progress(self.phase),
            None => 0,
        } + if self.phase is Finished || self.phase is Failed {
            0int
        } else {
            1int
        }
    }

    /// The weight is never negative.
    pub proof fn lemma_weight(self)
        requires
            self.inv(),
        ensures
            self.weight() >= 0,
    {
        lemma_todo_weight(self.todo);
    }

    /// Every step that does not fail adds an edge to the graph or brings the
    /// walk nearer to its end. As the graph holds no edge twice, the walk
    /// descends through each pair of a build unit and a dependency of it at
    /// most once, and between two such descents it makes no more steps than
    /// its weight says.
    pub proof fn lemma_progress(self, event: Event)
        requires
            self.inv(),
            self.awaits(event),
            self.graph.units.len() < u32::MAX,
            self.step(event).1 is Ok,
        ensures
            self.step(event).0.graph.edges.len() == self.graph.edges.len() + 1 || (
            self.step(event).0.graph.edges == self.graph.edges && self.step(event).0.weight()
                < self.weight()),
    {
        let post = self.step(event).0;
        match event {
            Event::Resume => {
                match self.level {
                    None => {},
                    Some(level) => {
                        lemma_skip_gated(level.job.deps, level.job.flags, level.next);
                        let next = skip_gated(level.job.deps, level.job.flags, level.next);
                        if next >= level.job.deps.len() {
                            let at = WalkView { level: Some(LevelView { next, ..level }), ..self };
                            let unit = unit_of(level.job.dir, level.names);
                            at.graph.lemma_visit(unit, level.prev);
                        }
                    },
                }
            },
            _ => {},
        }
    }
}

/// Manifests that are put behind those that wait add no more than their
/// number times the greatest weight among them.
pub proof fn lemma_todo_weight_more(todo: Seq<TaskView>, more: Seq<TaskView>, cap: int)
    requires
        forall|i: int| 0 <= i < more.len() ==> task_weight(#[trigger] more[i]) <= cap,
    ensures
        todo_weight(todo + more) <= todo_weight(todo) + more.len() * cap,
    decreases more.len(),
{
    if more.len() == 0 {
        assert(todo + more =~= todo);
    } else {
        let head = more.drop_last();
        assert((todo + more).drop_last() =~= todo + head);
        assert((todo + more).last() == more.last());
        assert forall|i: int| 0 <= i < head.len() implies task_weight(#[trigger] head[i])
            <= cap by {
            assert(head[i] == more[i]);
        }
        lemma_todo_weight_more(todo, head, cap);
        assert(task_weight(more[more.len() - 1]) <= cap);
        assert(head.len() * cap + cap == more.len() * cap) by (nonlinear_arith)
            requires
                head.len() + 1 == more.len(),
        ;
    }
}

/// What one descent may add to the weight of the walk, and one more: no
/// manifest brings more than `deps` manifests to wait, each of a weight of
/// `2 + 5 * deps` at most.
pub open spec fn descent_cost(deps: nat) -> int {
    (deps * (2 + 5 * deps) + 1) as int
}

impl WalkView {
    /// The walk holds at most `units` build units, and none of its manifests
    /// declares more than `deps` dependencies.
    pub open spec fn within(self, units: nat, deps: nat) -> bool {
        &&& self.graph.units.len() <= units
        &&& forall|i: int|
            0 <= i < self.todo.len() ==> (#[trigger] self.todo[i]).job.deps.len() <= deps
        &&& self.level is Some ==> {
            &&& self.level->0.job.deps.len() <= deps
            &&& forall|k: int|
                0 <= k < self.level->0.children.len() ==> (
                #[trigger] self.level->0.children[k]).deps.len() <= deps
        }
    }

    /// A bound on the steps that a walk within `units` build units and
    /// `deps` dependencies to a manifest still makes: its weight, and for
    /// each edge that the graph may still get the cost of a descent.
    pub open spec fn steps_left(self, units: nat, deps: nat) -> int {
        self.weight() + (units * units - self.graph.edges.len()) * descent_cost(deps)
    }

    /// The bound is never negative.
    pub proof fn lemma_steps_left(self, units: nat, deps: nat)
        requires
            self.inv(),
            self.graph.units.len() <= units,
        ensures
            self.steps_left(units, deps) >= 0,
    {
        self.lemma_weight();
        self.graph.lemma_edge_count();
        let n = self.graph.units.len() as int;
        let e = self.graph.edges.len() as int;
        let c = descent_cost(deps);
        assert((units * units - e) * c >= 0) by (nonlinear_arith)
            requires
                0 <= n <= units,
                e <= n * n,
                c == deps * (2 + 5 * deps) + 1,
                deps >= 0,
        ;
    }

    /// Every step that does not fail lowers the bound.
    pub proof fn lemma_step_counts(self, event: Event, units: nat, deps: nat)
        requires
            self.inv(),
            self.awaits(event),
            self.graph.units.len() < u32::MAX,
            self.step(event).1 is Ok,
            self.within(units, deps),
        ensures
            self.step(event).0.steps_left(units, deps) < self.steps_left(units, deps),
    {
        let post = self.step(event).0;
        let c = descent_cost(deps);
        self.lemma_progress(event);
        if post.graph.edges.len() == self.graph.edges.len() + 1 {
            // only the close of a manifest adds an edge
            let level = self.level->0;
            lemma_skip_gated(level.job.deps, level.job.flags, level.next);
            let next = skip_gated(level.job.deps, level.job.flags, level.next);
            let at = WalkView { level: Some(LevelView { next, ..level }), ..self };
            let unit = unit_of(level.job.dir, level.names);
            at.graph.lemma_visit(unit, level.prev);
            let node = post.graph.units.index_of(unit) as usize;
            let more = tasks(level.children, node).reverse();
            let cap = 2 + 5 * (deps as int);
            assert(post.todo == self.todo + more);
            assert forall|i: int| 0 <= i < more.len() implies task_weight(#[trigger] more[i])
                <= cap by {
                let k = level.children.len() - 1 - i;
                assert(more[i] == tasks(level.children, node)[k]);
                assert(more[i].job == level.children[k]);
            }
            lemma_todo_weight_more(self.todo, more, cap);
            let grown = more.len() as int;
            let e = self.graph.edges.len() as int;
            assert(grown * cap + (units * units - (e + 1)) * c + 2 <= (units * units - e) * c + 1)
                by (nonlinear_arith)
                requires
                    0 <= grown <= deps,
                    cap == 2 + 5 * deps,
                    c == deps * (2 + 5 * deps) + 1,
            ;
        } else {
            assert(post.graph.edges.len() == self.graph.edges.len());
        }
    }
}

/// A walk that stays within `units` build units and `deps` dependencies to
/// a manifest ends: from a walk of which the invariant holds, no more
/// steps can be made without a failure than the bound of that walk says.
/// The bound of a resolve at its start is the weight of the project's own
/// manifest and, for each pair of build units, the cost of a descent.
pub proof fn lemma_walk_ends(walk: WalkView, events: Seq<Event>, units: nat, deps: nat)
    requires
        walk.inv(),
        forall|i: int|
            0 <= i < events.len() ==> {
                &&& (#[trigger] run(walk, events.take(i))).awaits(events[i])
                &&& run(walk, events.take(i)).step(events[i]).1 is Ok
                &&& run(walk, events.take(i)).within(units, deps)
                &&& run(walk, events.take(i)).graph.units.len() < u32::MAX
            },
        run(walk, events).graph.units.len() <= units,
    ensures
        run(walk, events).inv(),
        events.len() + run(walk, events).steps_left(units, deps) <= walk.steps_left(units, deps),
        events.len() <= walk.steps_left(units, deps),
    decreases events.len(),
{
    if events.len() > 0 {
        let n = events.len() as int;
        let head = events.drop_last();
        let before = run(walk, head);
        assert(head =~= events.take(n - 1));
        assert forall|i: int| 0 <= i < head.len() implies {
            &&& (#[trigger] run(walk, head.take(i))).awaits(head[i])
            &&& run(walk, head.take(i)).step(head[i]).1 is Ok
            &&& run(walk, head.take(i)).within(units, deps)
            &&& run(walk, head.take(i)).graph.units.len() < u32::MAX
        } by {
            assert(head.take(i) =~= events.take(i));
            assert(head[i] == events[i]);
            assert(run(walk, events.take(i)).awaits(events[i]));
        }
        assert(run(walk, events.take(n - 1)).awaits(events[n - 1]));
        lemma_walk_ends(walk, head, units, deps);
        before.lemma_step(events.last());
        before.lemma_step_counts(events.last(), units, deps);
    }
    run(walk, events).lemma_steps_left(units, deps);
}

/// Of the walk before its first step the invariant holds.
pub proof fn lemma_start(deps: Seq<Dep>, flags: Seq<Seq<char>>)
    ensures
        WalkView::start(deps, flags).inv(),
        WalkView::start(deps, flags).weight() == 3 + 5 * deps.len(),
{
    let start = WalkView::start(deps, flags);
    assert(start.todo.drop_last() =~= Seq::<TaskView>::empty());
    assert(todo_weight(start.todo.drop_last()) == 0);
    assert(todo_weight(start.todo) == task_weight(start.todo.last()));
}

/// A resolve that meets no more than `units` build units, and no manifest
/// with more than `most` dependencies, ends after no more steps than three,
/// five for each declaration of the project, and the cost of a descent for
/// each pair of build units. So a resolve over finitely many manifests ends,
/// however they depend on each other.
pub proof fn lemma_resolve_ends(
    deps: Seq<Dep>,
    flags: Seq<Seq<char>>,
    events: Seq<Event>,
    units: nat,
    most: nat,
)
    requires
        forall|i: int|
            0 <= i < events.len() ==> {
                &&& (#[trigger] run(WalkView::start(deps, flags), events.take(i))).awaits(events[i])
                &&& run(WalkView::start(deps, flags), events.take(i)).step(events[i]).1 is Ok
                &&& run(WalkView::start(deps, flags), events.take(i)).within(units, most)
                &&& run(WalkView::start(deps, flags), events.take(i)).graph.units.len()
                    < u32::MAX
            },
        run(WalkView::start(deps, flags), events).graph.units.len() <= units,
    ensures
        events.len() <= 3 + 5 * deps.len() + units * units * descent_cost(most),
{
    let start = WalkView::start(deps, flags);
    lemma_start(deps, flags);
    lemma_walk_ends(start, events, units, most);
    assert(start.graph.edges.len() == 0);
}

/// No manifest that waits has a negative weight.
pub proof fn lemma_todo_weight(todo: Seq<TaskView>)
    ensures
        todo_weight(todo) >= 0,
    decreases todo.len(),
{
    if todo.len() > 0 {
        lemma_todo_weight(todo.drop_last());
    }
}

/// The walk after the events `events`, one after another.
pub open spec fn run(walk: WalkView, events: Seq<Event>) -> WalkView
    decreases events.len(),
{
    if events.len() == 0 {
        walk
    } else {
        run(walk, events.drop_last()).step(events.last()).0
    }
}

/// What the walk asks at each of the events `events`.
pub open spec fn asked(walk: WalkView, events: Seq<Event>) -> Seq<Result<ActionView, ErrorView>> {
    Seq::new(events.len(), |i: int| run(walk, events.take(i)).step(events[i]).1)
}

/// A resolve in whose course every directory is found to exist checks
/// nothing out. And as the walk after some events and what it asks are
/// functions of the walk before and of the events, a resolve that is given
/// the same answers a second time asks the same, ends in the same walk, and
/// so yields the same lock units and the same build stages.
pub proof fn lemma_rerun_installs_nothing(walk: WalkView, events: Seq<Event>, i: int)
    requires
        0 <= i < events.len(),
        run(walk, events.take(i)).awaits(events[i]),
        forall|k: int| 0 <= k < events.len() ==> #[trigger] events[k] != Event::Probed(false),
    ensures
        !(asked(walk, events)[i] matches Ok(ActionView::Install { .. })),
{
    let at = run(walk, events.take(i));
    if at.step(events[i]).1 matches Ok(ActionView::Install { .. }) {
        lemma_install_only_absent(at, events[i]);
    }
}

/// The declarations that are passed over do not count, and the one that is
/// reached does.
pub proof fn lemma_skip_gated(deps: Seq<Dep>, flags: Seq<Seq<char>>, from: int)
    requires
        0 <= from <= deps.len(),
    ensures
        from <= skip_gated(deps, flags, from) <= deps.len(),
        forall|k: int| from <= k < skip_gated(deps, flags, from) ==> !enabled(deps[k], flags),
        skip_gated(deps, flags, from) < deps.len() ==> enabled(
            deps[skip_gated(deps, flags, from)],
            flags,
        ),
    decreases deps.len() - from,
{
    if from < deps.len() && !enabled(deps[from], flags) {
        lemma_skip_gated(deps, flags, from + 1);
    }
}

struct Job {
    dir: String,
    lock: Option<LockUnit>,
    deps: Vec<Dep>,
    flags: Vec<String>,
}

struct Task {
    job: Job,
    prev: usize,
}

struct Level {
    job: Job,
    prev: usize,
    next: usize,
    names: Vec<(String, String)>,
    children: Vec<Job>,
}

struct Held {
    lock: LockUnit,
    dir: String,
}

#[derive(Clone, Copy, PartialEq, Eq, Structural)]
enum Stage {
    Idle,
    Tags,
    Probing,
    Installing,
    Loading,
    Finished,
    Failed,
}

/// The value of a lock unit that may be missing.
pub open spec fn lock_view(lock: Option<LockUnit>) -> Option<LockView> {
    match lock {
        Some(l) => Some(l@),
        None => None,
    }
}

impl View for Job {
    type V = JobView;

    closed spec fn view(&self) -> JobView {
        JobView {
            dir: self.dir@,
            lock: lock_view(self.lock),
            deps: self.deps@,
            flags: texts(self.flags@),
        }
    }
}

spec fn job_views(jobs: Seq<Job>) -> Seq<JobView> {
    Seq::new(jobs.len(), |i: int| jobs[i]@)
}

impl View for Task {
    type V = TaskView;

    closed spec fn view(&self) -> TaskView {
        TaskView { job: self.job@, prev: self.prev }
    }
}

spec fn task_views(list: Seq<Task>) -> Seq<TaskView> {
    Seq::new(list.len(), |i: int| list[i]@)
}

impl View for Level {
    type V = LevelView;

    closed spec fn view(&self) -> LevelView {
        LevelView {
            job: self.job@,
            prev: self.prev,
            next: self.next as int,
            names: pairs(self.names@),
            children: job_views(self.children@),
        }
    }
}

spec fn level_view(level: Option<Level>) -> Option<LevelView> {
    match level {
        Some(l) => Some(l@),
        None => None,
    }
}

spec fn phase_view(stage: Stage, held: Option<Held>) -> PhaseView {
    match stage {
        Stage::Idle => PhaseView::Idle,
        Stage::Tags => PhaseView::Tags,
        Stage::Probing => PhaseView::Probing { lock: held->0.lock@, dir: held->0.dir@ },
        Stage::Installing => PhaseView::Installing { lock: held->0.lock@, dir: held->0.dir@ },
        Stage::Loading => PhaseView::Loading { lock: held->0.lock@, dir: held->0.dir@ },
        Stage::Finished => PhaseView::Finished,
        Stage::Failed => PhaseView::Failed,
    }
}

spec fn cache_view(cache: Map<Seq<char>, Vec<VersionTag>>) -> Map<Seq<char>, Seq<TagView>> {
    cache.map_values(|tags: Vec<VersionTag>| tag_views(tags@))
}

/// One resolve: the walk over the manifests, from the project's own
/// declarations to the build graph and the lock units.
pub struct Walk {
    graph: DepGraph,
    locks: Vec<LockUnit>,
    cache: StringHashMap<Vec<VersionTag>>,
    todo: Vec<Task>,
    level: Option<Level>,
    held: Option<Held>,
    stage: Stage,
}

impl View for Walk {
    type V = WalkView;

    closed spec fn view(&self) -> WalkView {
        WalkView {
            graph: self.graph@,
            locks: lock_views(self.locks@),
            cache: cache_view(self.cache@),
            todo: task_views(self.todo@),
            level: level_view(self.level),
            phase: phase_view(self.stage, self.held),
        }
    }
}

fn copy_texts(list: &Vec<String>) -> (copy: Vec<String>)
    ensures
        texts(copy@) == texts(list@),
{
    let mut copy: Vec<String> = Vec::new();
    let mut i: usize = 0;
    while i < list.len()
        invariant
            i <= list.len(),
            copy.len() == i,
            forall|k: int| 0 <= k < i ==> copy@[k]@ == list@[k]@,
        decreases list.len() - i,
    {
        copy.push(list[i].clone());
        i += 1;
    }
    assert(texts(copy@) =~= texts(list@));
    copy
}

impl Walk {
    /// The invariant of the walk.
    pub closed spec fn wf(&self) -> bool {
        &&& self.graph.wf()
        &&& self@.cache_sorted()
        &&& self.stage == Stage::Failed || self@.inv()
        &&& (self.stage == Stage::Probing || self.stage == Stage::Installing || self.stage
            == Stage::Loading) ==> self.held is Some
    }

    /// Of the value of a well-formed walk that has not failed the invariant
    /// holds.
    pub proof fn lemma_inv(&self)
        requires
            self.wf(),
            !(self@.phase is Failed),
        ensures
            self@.inv(),
    {
    }

    proof fn lemma_same_cache(before: Walk, after: Walk)
        requires
            before@.cache_sorted(),
            after.cache == before.cache,
        ensures
            after@.cache_sorted(),
    {
        assert(after@.cache == before@.cache);
    }

    /// The tags that a well-formed walk keeps are sorted.
    pub proof fn lemma_cache_sorted(&self)
        requires
            self.wf(),
        ensures
            self@.cache_sorted(),
    {
    }

    /// One more node and one more edge fit into the graph.
    pub open spec fn has_room(&self) -> bool {
        self@.graph.units.len() < u32::MAX && self@.graph.edges.len() < u32::MAX
    }

    fn new(deps: Vec<Dep>, flags: Vec<String>) -> (walk: Walk)
        ensures
            walk.wf(),
            walk@ == WalkView::start(deps@, texts(flags@)),
    {
        proof {
            reveal_strlit("root");
        }
        let dir = String::from_str("root");
        assert(dir@ =~= root_dir());
        let mut todo: Vec<Task> = Vec::new();
        todo.push(Task { job: Job { dir, lock: None, deps, flags }, prev: 0 });
        let walk = Walk {
            graph: DepGraph::new(),
            locks: Vec::new(),
            cache: StringHashMap::new(),
            todo,
            level: None,
            held: None,
            stage: Stage::Idle,
        };
        proof {
            walk.graph.lemma_sound();
            let start = WalkView::start(deps@, texts(flags@));
            assert(walk@.graph.units =~= start.graph.units);
            assert(walk@.graph.edges =~= start.graph.edges);
            assert(walk@.locks =~= start.locks);
            assert(walk@.cache =~= start.cache);
            assert(walk@.todo =~= start.todo);
        }
        walk
    }

    /// Whether one more node and one more edge fit into the graph.
    pub fn room(&self) -> (r: bool)
        requires
            self.wf(),
        ensures
            r == self.has_room(),
    {
        self.graph.room()
    }

    /// Whether the event answers what the walk waits for.
    pub fn expects(&self, event: &Event) -> (r: bool)
        ensures
            r == self@.awaits(*event),
    {
        match (self.stage, event) {
            (Stage::Idle, Event::Resume) => true,
            (Stage::Tags, Event::Tags(_)) => true,
            (Stage::Probing, Event::Probed(_)) => true,
            (Stage::Installing, Event::Installed(_)) => true,
            (Stage::Loading, Event::Loaded(_)) => true,
            _ => false,
        }
    }

    /// The lock units that were collected so far, in the order in which
    /// their nodes were made.
    pub fn locks(&self) -> (r: &Vec<LockUnit>)
        ensures
            lock_views(r@) == self@.locks,
    {
        &self.locks
    }

    /// How many build units the graph holds so far.
    pub fn nodes(&self) -> (n: usize)
        requires
            self.wf(),
        ensures
            n == self@.graph.units.len(),
    {
        self.graph.len()
    }

    /// Whether the walk is over.
    pub fn finished(&self) -> (r: bool)
        ensures
            r == (self@.phase is Finished),
    {
        self.stage == Stage::Finished
    }

    fn probed(&mut self, present: bool) -> (r: Result<Action, ResolveError>)
        requires
            old(self).wf(),
            old(self).has_room(),
            old(self)@.phase is Probing,
        ensures
            final(self).wf(),
            follows(final(self)@, r, old(self)@.probed(present)),
    {
        proof {
            old(self)@.lemma_step(Event::Probed(present));
        }
        let held = self.held.as_ref().unwrap();
        if present {
            let action = Action::Load { dir: held.dir.clone() };
            self.stage = Stage::Loading;
            Ok(action)
        } else {
            let action = Action::Install { dir: held.dir.clone(), lock: held.lock.duplicate() };
            self.stage = Stage::Installing;
            Ok(action)
        }
    }

    fn installed(&mut self, done: Result<(), String>) -> (r: Result<Action, ResolveError>)
        requires
            old(self).wf(),
            old(self).has_room(),
            old(self)@.phase is Installing,
        ensures
            final(self).wf(),
            follows(final(self)@, r, old(self)@.installed(done)),
    {
        proof {
            if done is Ok {
                old(self)@.lemma_step(Event::Installed(done));
            }
        }
        let held = self.held.as_ref().unwrap();
        match done {
            Ok(_) => {
                let action = Action::Load { dir: held.dir.clone() };
                self.stage = Stage::Loading;
                proof {
                    Self::lemma_same_cache(*old(self), *self);
                }
                Ok(action)
            },
            Err(message) => {
                let e = ResolveError::InstallFailure { lock: held.lock.duplicate(), message };
                self.stage = Stage::Failed;
                self.level = None;
                proof {
                    Self::lemma_same_cache(*old(self), *self);
                }
                Err(e)
            },
        }
    }

    fn loaded(&mut self, read: Result<Cfg, String>) -> (r: Result<Action, ResolveError>)
        requires
            old(self).wf(),
            old(self).has_room(),
            old(self)@.phase is Loading,
        ensures
            final(self).wf(),
            follows(final(self)@, r, old(self)@.loaded(read)),
    {
        proof {
            if read is Ok {
                old(self)@.lemma_step(Event::Loaded(read));
            }
        }
        match read {
            Err(message) => {
                let held = self.held.as_ref().unwrap();
                let e = ResolveError::ManifestError { dir: held.dir.clone(), message };
                self.stage = Stage::Failed;
                self.level = None;
                proof {
                    Self::lemma_same_cache(*old(self), *self);
                }
                Err(e)
            },
            Ok(cfg) => {
                let Held { lock, dir } = self.held.take().unwrap();
                let mut level = self.level.take().unwrap();
                let ghost before = level@;
                assert(old(self)@.level == Some(before));
                assert(before.next < before.job.deps.len());
                assert(level.next < level.job.deps.len());
                let dep = &level.job.deps[level.next];
                let name = match &dep.name {
                    Some(name) => name.clone(),
                    None => cfg.name,
                };
                let flags = match &dep.options {
                    Some(options) => copy_texts(options),
                    None => Vec::new(),
                };
                assert(texts(flags@) =~= flags_of(*dep));
                let child = Job { dir: dir.clone(), lock: Some(lock), deps: cfg.deps, flags };
                level.names.push((name, dir));
                level.children.push(child);
                level.next = level.next + 1;
                proof {
                    assert(level@.names =~= before.names.push((name_of(*dep, cfg.name@), dir@)));
                    assert(level@.children =~= before.children.push(child@));
                }
                self.level = Some(level);
                self.stage = Stage::Idle;
                proof {
                    Self::lemma_same_cache(*old(self), *self);
                }
                Ok(Action::Proceed)
            },
        }
    }

    fn take_up(&mut self) -> (r: Result<Action, ResolveError>)
        requires
            old(self).wf(),
            old(self).has_room(),
            old(self)@.phase is Idle,
            old(self)@.level is Some,
            old(self)@.level->0.next < old(self)@.level->0.job.deps.len(),
            enabled(old(self)@.dep(), old(self)@.level->0.job.flags),
        ensures
            final(self).wf(),
            follows(final(self)@, r, old(self)@.take_up()),
    {
        proof {
            if old(self)@.take_up().1 is Ok {
                old(self)@.lemma_take_up();
            }
        }
        let level = self.level.as_ref().unwrap();
        let dep = &level.job.deps[level.next];
        assert(*dep == self@.dep());
        let found = match &dep.dep_type {
            Some(DepType::Version(_)) => match self.cache.get(dep.repo.as_str()) {
                None => None,
                Some(tags) => {
                    assert(cache_view(self.cache@)[dep.repo@] == tag_views(tags@));
                    Some(resolve(dep, tags))
                },
            },
            _ => {
                let none: Vec<VersionTag> = Vec::new();
                assert(tag_views(none@) =~= Seq::<TagView>::empty());
                Some(resolve(dep, &none))
            },
        };
        match found {
            None => {
                let action = Action::ListTags { repo: dep.repo.clone() };
                self.stage = Stage::Tags;
                Ok(action)
            },
            Some(Err(e)) => {
                self.stage = Stage::Failed;
                self.level = None;
                Err(e)
            },
            Some(Ok(lock)) => match dep_dir(&lock) {
                Err(e) => {
                    self.stage = Stage::Failed;
                    self.level = None;
                    Err(e)
                },
                Ok(dir) => {
                    let action = Action::Probe { dir: dir.clone() };
                    self.held = Some(Held { lock, dir });
                    self.stage = Stage::Probing;
                    Ok(action)
                },
            },
        }
    }

    fn tags_listed(&mut self, listed: Vec<VersionTag>) -> (r: Result<Action, ResolveError>)
        requires
            old(self).wf(),
            old(self).has_room(),
            old(self)@.phase is Tags,
        ensures
            final(self).wf(),
            follows(final(self)@, r, old(self)@.tags_listed(tag_views(listed@))),
    {
        let sorted = sort_tags(&listed);
        let level = self.level.as_ref().unwrap();
        let repo = level.job.deps[level.next].repo.clone();
        let ghost known = self.cache@;
        self.cache.insert(repo, sorted);
        self.stage = Stage::Idle;
        proof {
            assert(cache_view(self.cache@) =~= cache_view(known).insert(repo@, tag_views(sorted@)));
            old(self)@.lemma_keep_tags(repo@, tag_views(sorted@));
            assert(self@ == WalkView {
                cache: old(self)@.cache.insert(repo@, tag_views(sorted@)),
                phase: PhaseView::Idle,
                ..old(self)@
            });
        }
        self.take_up()
    }

    fn close(&mut self) -> (r: Result<Action, ResolveError>)
        requires
            old(self).wf(),
            old(self).has_room(),
            old(self)@.phase is Idle,
            old(self)@.level is Some,
        ensures
            final(self).wf(),
            follows(final(self)@, r, old(self)@.close()),
    {
        let ghost pre = self@;
        let ghost level_pre = pre.level->0;
        let Level { job, prev, names, mut children, .. } = self.level.take().unwrap();
        let Job { dir, lock, .. } = job;
        let ghost all = job_views(children@);
        assert(all == level_pre.children);
        let unit = match BuildUnit::new(dir, &names) {
            Err(e) => {
                self.stage = Stage::Failed;
                return Err(e);
            },
            Ok(unit) => unit,
        };
        let ghost value = unit@;
        assert(value == unit_of(level_pre.job.dir, level_pre.names));
        assert(prev == level_pre.prev);
        assert(lock_view(lock) == level_pre.job.lock);
        let visit = self.graph.visit(unit, prev);
        proof {
            self.graph.lemma_sound();
            let grown = pre.graph.visit(value, prev);
            assert(grown.units[visit.node as int] == value);
            assert(grown.units.contains(value));
            let at = grown.units.index_of(value);
            assert(grown.units[at] == value);
            assert(at == visit.node);
        }
        if visit.first {
            match lock {
                Some(lock) => {
                    proof {
                        assert(lock_views(self.locks@.push(lock)) =~= lock_views(self.locks@).push(
                            lock@,
                        ));
                    }
                    self.locks.push(lock);
                },
                None => {},
            }
        }
        if visit.descend {
            let ghost todo_pre = task_views(self.todo@);
            let ghost turned = tasks(all, visit.node).reverse();
            let ghost mid = *self;
            proof {
                assert(turned.take(0) =~= Seq::<TaskView>::empty());
                assert(todo_pre + turned.take(0) =~= todo_pre);
            }
            while children.len() > 0
                invariant
                    self.graph == mid.graph,
                    self.locks == mid.locks,
                    self.cache == mid.cache,
                    self.level == mid.level,
                    self.held == mid.held,
                    self.stage == mid.stage,
                    children.len() <= all.len(),
                    job_views(children@) == all.take(children.len() as int),
                    turned == tasks(all, visit.node).reverse(),
                    task_views(self.todo@) == todo_pre + turned.take(all.len() - children.len()),
                decreases children.len(),
            {
                let ghost rest = children.len() as int;
                let ghost todo_now = task_views(self.todo@);
                let ghost kids = children@;
                let child = children.pop().unwrap();
                let task = Task { job: child, prev: visit.node };
                proof {
                    assert(child@ == job_views(kids)[rest - 1]);
                    assert(child@ == all[rest - 1]);
                    assert(turned.len() == all.len());
                    assert(turned[all.len() - rest] == tasks(all, visit.node)[rest - 1]);
                    assert(task@ == turned[all.len() - rest]);
                    assert(job_views(children@) =~= all.take(rest - 1));
                    assert(task_views(self.todo@.push(task)) =~= todo_now.push(task@));
                    assert(turned.take(all.len() - rest + 1) =~= turned.take(all.len() - rest).push(
                        task@,
                    ));
                    assert(todo_now.push(task@) =~= todo_pre + turned.take(all.len() - rest + 1));
                }
                self.todo.push(task);
            }
            proof {
                assert(turned.take(all.len() as int) =~= turned);
            }
        }
        proof {
            let post = self@;
            let want = pre.close().0;
            assert(post.todo == want.todo);
            assert(post.locks == want.locks);
            assert(post.graph == want.graph);
            pre.lemma_close();
        }
        Ok(Action::Proceed)
    }

    fn resume(&mut self) -> (r: Result<Action, ResolveError>)
        requires
            old(self).wf(),
            old(self).has_room(),
            old(self)@.phase is Idle,
        ensures
            final(self).wf(),
            follows(final(self)@, r, old(self)@.resume()),
    {
        let ghost pre = self@;
        match self.level.take() {
            None => {
                let ghost todo_pre = self.todo@;
                match self.todo.pop() {
                    None => {
                        proof {
                            pre.lemma_resume();
                        }
                        self.stage = Stage::Finished;
                        Ok(Action::Finish)
                    },
                    Some(task) => {
                        let Task { job, prev } = task;
                        let level = Level {
                            job,
                            prev,
                            next: 0,
                            names: Vec::new(),
                            children: Vec::new(),
                        };
                        proof {
                            assert(task@ == pre.todo.last());
                            assert(task_views(self.todo@) =~= pre.todo.drop_last());
                            assert(level@.names =~= Seq::<(Seq<char>, Seq<char>)>::empty());
                            assert(level@.children =~= Seq::<JobView>::empty());
                            pre.lemma_resume();
                        }
                        self.level = Some(level);
                        Ok(Action::Proceed)
                    },
                }
            },
            Some(mut level) => {
                let ghost before = level@;
                let mut n: usize = level.next;
                while n < level.job.deps.len() && !is_enabled(&level.job.deps[n], &level.job.flags)
                    invariant
                        level.next <= n <= level.job.deps.len(),
                        skip_gated(level.job.deps@, texts(level.job.flags@), level.next as int)
                            == skip_gated(level.job.deps@, texts(level.job.flags@), n as int),
                    decreases level.job.deps.len() - n,
                {
                    n += 1;
                }
                level.next = n;
                let more = n < level.job.deps.len();
                proof {
                    assert(n == skip_gated(before.job.deps, before.job.flags, before.next));
                    assert(level@ == LevelView { next: n as int, ..before });
                    lemma_skip_gated(before.job.deps, before.job.flags, before.next);
                    pre.lemma_pass_over();
                }
                self.level = Some(level);
                assert(self@ == WalkView {
                    level: Some(LevelView { next: n as int, ..before }),
                    ..pre
                });
                if more {
                    self.take_up()
                } else {
                    self.close()
                }
            },
        }
    }

    /// Takes the answer to what was asked last, and returns what is asked
    /// next: the walk moves as [`WalkView::step`] says.
    ///
    /// A step that fails registers nothing: the graph, the lock units and
    /// the manifests that wait stay as they were. After a failure the walk
    /// is over, and nothing more may be reported to it.
    pub fn step(&mut self, event: Event) -> (r: Result<Action, ResolveError>)
        requires
            old(self).wf(),
            old(self).has_room(),
            old(self)@.awaits(event),
        ensures
            final(self).wf(),
            follows(final(self)@, r, old(self)@.step(event)),
    {
        match event {
            Event::Resume => self.resume(),
            Event::Tags(Ok(listed)) => self.tags_listed(listed),
            Event::Tags(Err(message)) => {
                self.stage = Stage::Failed;
                self.level = None;
                proof {
                    Self::lemma_same_cache(*old(self), *self);
                }
                Err(ResolveError::IoError { message })
            },
            Event::Probed(present) => self.probed(present),
            Event::Installed(done) => self.installed(done),
            Event::Loaded(read) => self.loaded(read),
        }
    }

    /// The result of a walk that is over: the lock units in the order in
    /// which their nodes were made, and the build stages.
    pub fn finish(self) -> (r: (Vec<LockUnit>, Vec<Vec<BuildUnit>>))
        requires
            self.wf(),
            self@.phase is Finished,
        ensures
            lock_views(r.0@) == self@.locks,
            stage_views(r.1@) == self@.graph.stages(),
            is_scc_order(
                self@.graph.units.len(),
                self@.graph.edges,
                scc_order(self@.graph.units.len(), self@.graph.edges),
            ),
            forall|c: int, i: int|
                0 <= c < r.1.len() && 0 <= i < r.1[c].len() ==> (#[trigger] r.1[c][i]).wf(),
            r.1.len() > 0,
            exists|i: int|
                0 <= i < r.1[r.1.len() - 1].len() && (#[trigger] r.1[r.1.len() - 1][i])@.dir
                    == root_dir(),
    {
        let Walk { graph, locks, .. } = self;
        let ghost value = graph@;
        let stages = graph.build_order();
        proof {
            graph.lemma_sound();
            value.lemma_stages();
            let last = value.stages().last();
            let i = choose|i: int| 0 <= i < last.len() && last[i] == value.units[0];
            assert(stage_views(stages@)[stages.len() - 1][i] == stages[stages.len() - 1][i]@);
        }
        (locks, stages)
    }
}

/// Begins the resolve of a project from its declarations and the flags that
/// are switched on.
pub fn install(deps: Vec<Dep>, options: Vec<String>) -> (walk: Walk)
    ensures
        walk.wf(),
        walk@ == WalkView::start(deps@, texts(options@)),
{
    Walk::new(deps, options)
}

/// [`install`], the declarations being those of the project's manifest: its
/// dependencies, then those it needs for its own development.
pub fn cfg_install(cfg: Cfg, options: Vec<String>) -> (walk: Walk)
    ensures
        walk.wf(),
        walk@ == WalkView::start(cfg.deps@ + cfg.dev_deps@, texts(options@)),
{
    let Cfg { mut dev_deps, mut deps, .. } = cfg;
    deps.append(&mut dev_deps);
    install(deps, options)
}

} // verus!
