//! Directory names: from a lock unit to the name of the directory that holds
//! its checkout.

use vstd::prelude::*;
use crate::error::{ErrorView, ResolveError};
use crate::model::{LockType, LockUnit, LockView, PinView};
use crate::text::{chars_of, is_word_char, word_char};

verus! {

/// The characters of which an author's or a repository's name is made: word
/// characters and the hyphen.
pub open spec fn is_segment_char(c: char) -> bool {
    is_word_char(c) || c == '-'
}

/// Every character of `s` may stand in a name.
pub open spec fn is_segment(s: Seq<char>) -> bool {
    forall|i: int| 0 <= i < s.len() ==> is_segment_char(#[trigger] s[i])
}

/// Where the longest run of name characters that ends just before `end`
/// begins.
pub open spec fn run_start(s: Seq<char>, end: int) -> int
    decreases end,
{
    if 0 < end <= s.len() && is_segment_char(s[end - 1]) {
        run_start(s, end - 1)
    } else {
        end
    }
}

/// The ending that every repository address carries.
pub open spec fn git_suffix() -> Seq<char> {
    seq!['.', 'g', 'i', 't']
}

/// A segment of the path may begin at `at`: at the beginning of the address;
/// behind a slash, unless that slash is the second one of `://`, behind which
/// the host stands and no path; or behind the colon of an address of the
/// form `host:path`, in which no slash stands before the colon.
pub open spec fn segment_begins(url: Seq<char>, at: int) -> bool {
    ||| at == 0
    ||| at >= 1 && url[at - 1] == '/' && !(at >= 3 && url[at - 2] == '/' && url[at - 3] == ':')
    ||| at >= 1 && url[at - 1] == ':' && forall|i: int| 0 <= i < at - 1 ==> url[i] != '/'
}

/// Author and name of the repository at `url`, the last two segments of its
/// path: the address ends in `.git`; the name is the run of name characters
/// before that ending and is not empty; a slash stands before the name; the
/// author is the run of name characters before the slash, is not empty and
/// is a whole segment of the path. `None` for every other address: one
/// without the ending, one with a single segment such as `/name.git` or
/// `https://host/name.git`, and one with a segment that is empty or holds
/// another character.
pub open spec fn repo_parts(url: Seq<char>) -> Option<(Seq<char>, Seq<char>)> {
    let end = url.len() - 4;
    if end < 0 || url.subrange(end, url.len() as int) != git_suffix() {
        None
    } else {
        let name_at = run_start(url, end);
        if name_at == end || name_at == 0 || url[name_at - 1] != '/' {
            None
        } else {
            let author_at = run_start(url, name_at - 1);
            if author_at == name_at - 1 || !segment_begins(url, author_at) {
                None
            } else {
                Some((url.subrange(author_at, name_at - 1), url.subrange(name_at, end)))
            }
        }
    }
}

/// `head`, a dot, `tail`.
pub open spec fn dotted(head: Seq<char>, tail: Seq<char>) -> Seq<char> {
    head + seq!['.'] + tail
}

/// `<author>.<name>` of the repository at `url`.
pub open spec fn repo_slug(url: Seq<char>) -> Option<Seq<char>> {
    match repo_parts(url) {
        Some((author, name)) => Some(dotted(author, name)),
        None => None,
    }
}

/// The word that tells a branch from a commit in a directory name.
pub open spec fn pin_kind(pin: PinView) -> Seq<char> {
    match pin {
        PinView::Branch(_) => seq!['b', 'r', 'a', 'n', 'c', 'h'],
        PinView::Commit(_) => seq!['c', 'o', 'm', 'm', 'i', 't'],
    }
}

/// The branch's name or the commit's hash.
pub open spec fn pin_text(pin: PinView) -> Seq<char> {
    match pin {
        PinView::Branch(b) => b,
        PinView::Commit(c) => c,
    }
}

/// Name of the directory of a lock unit: `<author>.<name>.branch.<branch>` or
/// `<author>.<name>.commit.<commit>`. `None` where the address of the
/// repository is invalid.
pub open spec fn dep_dir_spec(lock: LockView) -> Option<Seq<char>> {
    match repo_parts(lock.repo) {
        Some((author, name)) => Some(
            dotted(author, dotted(name, dotted(pin_kind(lock.pin), pin_text(lock.pin)))),
        ),
        None => None,
    }
}

fn segment_char(c: char) -> (r: bool)
    ensures
        r == is_segment_char(c),
{
    word_char(c) || c == '-'
}

fn find_run_start(s: &Vec<char>, end: usize) -> (start: usize)
    requires
        end <= s.len(),
    ensures
        start == run_start(s@, end as int),
        start <= end,
{
    let mut i: usize = end;
    while i > 0 && segment_char(s[i - 1])
        invariant
            i <= end <= s.len(),
            run_start(s@, end as int) == run_start(s@, i as int),
        decreases i,
    {
        i -= 1;
    }
    i
}

/// A run of name characters holds name characters only, and cannot be
/// stretched to the left.
pub proof fn lemma_run_start(s: Seq<char>, end: int)
    requires
        0 <= end <= s.len(),
    ensures
        0 <= run_start(s, end) <= end,
        is_segment(s.subrange(run_start(s, end), end)),
        run_start(s, end) > 0 ==> !is_segment_char(s[run_start(s, end) - 1]),
    decreases end,
{
    if 0 < end && is_segment_char(s[end - 1]) {
        lemma_run_start(s, end - 1);
        let start = run_start(s, end);
        assert forall|i: int| 0 <= i < end - start implies is_segment_char(
            #[trigger] s.subrange(start, end)[i],
        ) by {
            if i < end - 1 - start {
                assert(s.subrange(start, end)[i] == s.subrange(start, end - 1)[i]);
            }
        }
    }
}

fn begins_segment(s: &Vec<char>, at: usize) -> (r: bool)
    requires
        at <= s.len(),
    ensures
        r == segment_begins(s@, at as int),
{
    if at == 0 {
        return true;
    }
    if s[at - 1] == '/' {
        return !(at >= 3 && s[at - 2] == '/' && s[at - 3] == ':');
    }
    if s[at - 1] != ':' {
        return false;
    }
    let mut i: usize = 0;
    while i < at - 1
        invariant
            i <= at - 1 < s.len(),
            s@[at - 1] == ':',
            forall|k: int| 0 <= k < i ==> s@[k] != '/',
        decreases at - 1 - i,
    {
        if s[i] == '/' {
            return false;
        }
        i += 1;
    }
    true
}

/// Author and name of the repository at `git_url`, joined by a dot.
///
/// Fails where the address does not end in `.git` or its path has not two
/// segments of name characters before that ending.
pub fn repo_author_and_name(git_url: &str) -> (r: Result<String, ResolveError>)
    ensures
        match r {
            Ok(slug) => repo_slug(git_url@) == Some(slug@),
            Err(e) => repo_slug(git_url@) is None && e@ == (ErrorView::InvalidRepoUrl {
                repo: git_url@,
            }),
        },
{
    let chars = chars_of(git_url);
    let n = chars.len();
    if n < 4 || chars[n - 4] != '.' || chars[n - 3] != 'g' || chars[n - 2] != 'i' || chars[n - 1]
        != 't' {
        proof {
            if n >= 4 {
                let tail = git_url@.subrange(n - 4, n as int);
                assert(tail[0] == git_url@[n - 4]);
                assert(tail[1] == git_url@[n - 3]);
                assert(tail[2] == git_url@[n - 2]);
                assert(tail[3] == git_url@[n - 1]);
            }
        }
        return Err(ResolveError::InvalidRepoUrl { repo: String::from_str(git_url) });
    }
    assert(git_url@.subrange(n - 4, n as int) =~= git_suffix());
    let end = n - 4;
    let name_at = find_run_start(&chars, end);
    if name_at == end || name_at == 0 || chars[name_at - 1] != '/' {
        return Err(ResolveError::InvalidRepoUrl { repo: String::from_str(git_url) });
    }
    let author_at = find_run_start(&chars, name_at - 1);
    if author_at == name_at - 1 || !begins_segment(&chars, author_at) {
        return Err(ResolveError::InvalidRepoUrl { repo: String::from_str(git_url) });
    }
    let mut slug = String::from_str(git_url.substring_char(author_at, name_at - 1));
    slug.append(".");
    slug.append(git_url.substring_char(name_at, end));
    proof {
        reveal_strlit(".");
        assert(slug@ =~= dotted(
            git_url@.subrange(author_at as int, name_at - 1),
            git_url@.subrange(name_at as int, end as int),
        ));
    }
    Ok(slug)
}

/// Name of the directory that holds the checkout of `lock`.
///
/// Fails where the address of the repository does not end in
/// `<author>/<name>.git`, author and name being the last two segments of its
/// path.
pub fn dep_dir(lock: &LockUnit) -> (r: Result<String, ResolveError>)
    ensures
        match r {
            Ok(dir) => dep_dir_spec(lock@) == Some(dir@),
            Err(e) => dep_dir_spec(lock@) is None && e@ == (ErrorView::InvalidRepoUrl {
                repo: lock.repo@,
            }),
        },
{
    let mut dir = match repo_author_and_name(lock.repo.as_str()) {
        Ok(slug) => slug,
        Err(e) => {
            return Err(e);
        },
    };
    let ghost slug = dir@;
    proof {
        reveal_strlit(".branch.");
        reveal_strlit(".commit.");
    }
    match &lock.lock_type {
        LockType::Commit(commit) => {
            dir.append(".commit.");
            dir.append(commit.as_str());
        },
        LockType::Branch(branch) => {
            dir.append(".branch.");
            dir.append(branch.as_str());
        },
    }
    proof {
        let (author, name) = repo_parts(lock.repo@)->0;
        assert(dir@ =~= dotted(
            author,
            dotted(name, dotted(pin_kind(lock@.pin), pin_text(lock@.pin))),
        ));
    }
    Ok(dir)
}

/// No dot stands in `s`.
pub open spec fn dot_free(s: Seq<char>) -> bool {
    forall|i: int| 0 <= i < s.len() ==> #[trigger] s[i] != '.'
}

/// A text of name characters holds no dot.
pub proof fn lemma_segment_dot_free(s: Seq<char>)
    requires
        is_segment(s),
    ensures
        dot_free(s),
{
    assert forall|i: int| 0 <= i < s.len() implies #[trigger] s[i] != '.' by {
        assert(is_segment_char(s[i]));
    }
}

/// A dotted text whose head holds no dot can be read in one way only.
pub proof fn lemma_dotted_unique(x: Seq<char>, r: Seq<char>, y: Seq<char>, s: Seq<char>)
    requires
        dot_free(x),
        dot_free(y),
        dotted(x, r) == dotted(y, s),
    ensures
        x == y,
        r == s,
{
    let a = dotted(x, r);
    let b = dotted(y, s);
    if x.len() < y.len() {
        assert(a[x.len() as int] == '.');
        assert(b[x.len() as int] == y[x.len() as int]);
    }
    if y.len() < x.len() {
        assert(b[y.len() as int] == '.');
        assert(a[y.len() as int] == x[y.len() as int]);
    }
    assert(x.len() == y.len());
    assert(x =~= y) by {
        assert forall|i: int| 0 <= i < x.len() implies x[i] == y[i] by {
            assert(a[i] == x[i]);
            assert(b[i] == y[i]);
        }
    }
    assert(a.len() == b.len());
    assert(r =~= s) by {
        assert forall|i: int| 0 <= i < r.len() implies r[i] == s[i] by {
            assert(a[x.len() + 1 + i] == r[i]);
            assert(b[y.len() + 1 + i] == s[i]);
        }
    }
}

/// Author and name of a valid address are made of name characters.
pub proof fn lemma_repo_parts_segments(url: Seq<char>)
    requires
        repo_parts(url) is Some,
    ensures
        ({
            let (author, name) = repo_parts(url)->0;
            is_segment(author) && is_segment(name)
        }),
{
    let end = url.len() - 4;
    lemma_run_start(url, end);
    lemma_run_start(url, run_start(url, end) - 1);
}

/// A valid address is its author, a slash, its name and the ending `.git`,
/// after a beginning that is empty or ends in a slash or a colon; neither
/// the author nor the name is empty.
pub proof fn lemma_repo_parts_shape(url: Seq<char>)
    requires
        repo_parts(url) is Some,
    ensures
        ({
            let (author, name) = repo_parts(url)->0;
            let lead = url.subrange(0, url.len() - author.len() - name.len() - 5);
            &&& url == lead + author + seq!['/'] + name + git_suffix()
            &&& author.len() > 0
            &&& name.len() > 0
            &&& lead.len() > 0 ==> lead.last() == '/' || lead.last() == ':'
        }),
{
    let end = url.len() - 4;
    lemma_run_start(url, end);
    let name_at = run_start(url, end);
    lemma_run_start(url, name_at - 1);
    let (author, name) = repo_parts(url)->0;
    let lead = url.subrange(0, url.len() - author.len() - name.len() - 5);
    assert(url =~= lead + author + seq!['/'] + name + git_suffix());
}

/// Two lock units share a directory only if their repositories have the same
/// author and name and their pins are equal.
pub proof fn lemma_dep_dir_injective(a: LockView, b: LockView)
    requires
        dep_dir_spec(a) is Some,
        dep_dir_spec(a) == dep_dir_spec(b),
    ensures
        repo_parts(a.repo) == repo_parts(b.repo),
        a.pin == b.pin,
{
    let (author_a, name_a) = repo_parts(a.repo)->0;
    let (author_b, name_b) = repo_parts(b.repo)->0;
    lemma_repo_parts_segments(a.repo);
    lemma_repo_parts_segments(b.repo);
    lemma_segment_dot_free(author_a);
    lemma_segment_dot_free(author_b);
    lemma_segment_dot_free(name_a);
    lemma_segment_dot_free(name_b);
    let tail_a = dotted(pin_kind(a.pin), pin_text(a.pin));
    let tail_b = dotted(pin_kind(b.pin), pin_text(b.pin));
    lemma_dotted_unique(author_a, dotted(name_a, tail_a), author_b, dotted(name_b, tail_b));
    lemma_dotted_unique(name_a, tail_a, name_b, tail_b);
    lemma_dotted_unique(pin_kind(a.pin), pin_text(a.pin), pin_kind(b.pin), pin_text(b.pin));
    assert(pin_kind(a.pin)[0] == pin_kind(b.pin)[0]);
}

/// The directory name depends on the lock unit alone, and two pins of one
/// repository never share a directory.
pub proof fn lemma_dep_dir_deterministic(a: LockView, b: LockView)
    requires
        a.repo == b.repo,
    ensures
        a.pin == b.pin ==> dep_dir_spec(a) == dep_dir_spec(b),
        a.pin != b.pin && dep_dir_spec(a) is Some ==> dep_dir_spec(a) != dep_dir_spec(b),
{
    if a.pin != b.pin && dep_dir_spec(a) is Some && dep_dir_spec(a) == dep_dir_spec(b) {
        lemma_dep_dir_injective(a, b);
    }
}

} // verus!
