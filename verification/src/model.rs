//! The data of a resolve: declarations, lock units, manifests and the lock
//! artifact, with the mathematical values that the contracts speak of.

use vstd::prelude::*;

verus! {

/// How a declaration fixes the state of the repository it names.
#[derive(Clone, Debug, PartialEq, Eq)]
pub enum DepType {
    /// The head of a branch.
    Branch(String),
    /// One commit, by its hash.
    Commit(String),
    /// The newest tagged version that a requirement such as `^1.2` admits.
    Version(String),
}

/// One dependency as a manifest declares it.
#[derive(Clone, Debug, PartialEq, Eq)]
pub struct Dep {
    /// Name under which the dependent refers to the dependency; the
    /// dependency's own name where absent.
    pub name: Option<String>,
    /// Address of the repository.
    pub repo: String,
    /// The pin; the branch `default` where absent.
    pub dep_type: Option<DepType>,
    /// Flags switched on in the dependency's own manifest.
    pub options: Option<Vec<String>>,
    /// Flag of the declaring manifest without which the declaration is
    /// passed over.
    pub option_name: Option<String>,
}

/// A pin that names one state of a repository.
#[derive(Clone, Debug, PartialEq, Eq, PartialOrd, Ord, Hash)]
pub enum LockType {
    Branch(String),
    Commit(String),
}

/// A repository together with a resolved pin: what is checked out on disk.
#[derive(Clone, Debug, PartialEq, Eq, PartialOrd, Ord, Hash)]
pub struct LockUnit {
    pub repo: String,
    pub lock_type: LockType,
}

/// What a manifest holds.
#[derive(Clone, Debug, PartialEq, Eq)]
pub struct Cfg {
    /// Name that the project gives itself.
    pub name: String,
    /// Program that builds and runs the project.
    pub interpreter: String,
    /// Dependencies needed only while developing the project itself.
    pub dev_deps: Vec<Dep>,
    /// Dependencies of the project.
    pub deps: Vec<Dep>,
}

/// The lock artifact: what was asked for at the root, and every lock unit the
/// resolve arrived at.
#[derive(Clone, Debug, PartialEq, Eq)]
pub struct LockFile {
    pub root_deps: Vec<Dep>,
    pub root_options: Vec<String>,
    pub locks: Vec<LockUnit>,
}

/// The value of a [`LockType`].
pub enum PinView {
    Branch(Seq<char>),
    Commit(Seq<char>),
}

/// The value of a [`LockUnit`].
pub struct LockView {
    pub repo: Seq<char>,
    pub pin: PinView,
}

impl View for LockType {
    type V = PinView;

    open spec fn view(&self) -> PinView {
        match *self {
            LockType::Branch(b) => PinView::Branch(b@),
            LockType::Commit(c) => PinView::Commit(c@),
        }
    }
}

impl View for LockUnit {
    type V = LockView;

    open spec fn view(&self) -> LockView {
        LockView { repo: self.repo@, pin: self.lock_type@ }
    }
}

/// The values of a sequence of strings.
pub open spec fn texts(s: Seq<String>) -> Seq<Seq<char>> {
    Seq::new(s.len(), |i: int| s[i]@)
}

/// The values of a sequence of lock units.
pub open spec fn lock_views(s: Seq<LockUnit>) -> Seq<LockView> {
    Seq::new(s.len(), |i: int| s[i]@)
}

/// Name of the branch that a declaration without a pin follows.
pub open spec fn default_branch() -> Seq<char> {
    seq!['d', 'e', 'f', 'a', 'u', 'l', 't']
}

/// Path of the interpreter where a manifest names none.
pub open spec fn default_interpreter_path() -> Seq<char> {
    seq!['/', 'b', 'i', 'n', '/', 's', 'a', 'n', 's', 'k', 'r', 'i', 't']
}

/// The interpreter of a manifest that names none.
pub fn default_interpreter() -> (path: String)
    ensures
        path@ == default_interpreter_path(),
{
    proof {
        reveal_strlit("/bin/sanskrit");
    }
    let path = String::from_str("/bin/sanskrit");
    assert(path@ =~= default_interpreter_path());
    path
}

impl LockType {
    /// A copy that owns its text.
    pub fn duplicate(&self) -> (r: LockType)
        ensures
            r == *self,
    {
        match self {
            LockType::Branch(b) => LockType::Branch(b.clone()),
            LockType::Commit(c) => LockType::Commit(c.clone()),
        }
    }
}

impl LockUnit {
    /// A copy that owns its text.
    pub fn duplicate(&self) -> (r: LockUnit)
        ensures
            r == *self,
    {
        LockUnit { repo: self.repo.clone(), lock_type: self.lock_type.duplicate() }
    }
}

} // verus!
