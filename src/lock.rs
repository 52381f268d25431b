//! Decisions of the lockfile manager that pins repository snapshots.
use vstd::prelude::*;

use crate::text::push_str;
use vstd::string::StrSliceExecFns;

verus! {

pub type GitRevision = String;

/// A change to apply to a lockfile.
#[derive(Debug, PartialEq, Eq)]
pub enum LockfileChange {
    /// Move the named package to a new revision.
    UpdateRev(String, GitRevision),
}

impl View for LockfileChange {
    type V = (Seq<char>, Seq<char>);

    open spec fn view(&self) -> (Seq<char>, Seq<char>) {
        match self {
            LockfileChange::UpdateRev(name, rev) => (name@, rev@),
        }
    }
}

/// The URL of the tarball of a repository at a revision.
pub open spec fn archive_url_of(owner: Seq<char>, repo: Seq<char>, rev: Seq<char>) -> Seq<char> {
    "https://github.com/"@ + owner + "/"@ + repo + "/archive/"@ + rev + ".tar.gz"@
}

/// The URL of the tarball of `owner/repo` at `rev`.
pub fn archive_url(owner: &str, repo: &str, rev: &str) -> (r: String)
    ensures
        r@ == archive_url_of(owner@, repo@, rev@),
{
    let mut r = "https://github.com/".to_owned();
    push_str(&mut r, owner);
    push_str(&mut r, "/");
    push_str(&mut r, repo);
    push_str(&mut r, "/archive/");
    push_str(&mut r, rev);
    push_str(&mut r, ".tar.gz");
    r
}

/// A locked package next to the current head of its branch.
pub struct PackageHead {
    pub name: String,
    pub locked_rev: GitRevision,
    pub head: GitRevision,
}

impl View for PackageHead {
    type V = (Seq<char>, Seq<char>, Seq<char>);

    open spec fn view(&self) -> (Seq<char>, Seq<char>, Seq<char>) {
        (self.name@, self.locked_rev@, self.head@)
    }
}

/// One change per package whose head differs from its locked revision, in
/// the order of the packages.
pub open spec fn planned(ps: Seq<(Seq<char>, Seq<char>, Seq<char>)>) -> Seq<(Seq<char>, Seq<char>)>
    decreases ps.len(),
{
    if ps.len() == 0 {
        Seq::empty()
    } else {
        let rest = planned(ps.drop_last());
        let p = ps.last();
        if p.2 != p.1 {
            rest.push((p.0, p.2))
        } else {
            rest
        }
    }
}

/// Plans an update: each package whose branch head moved gets an
/// `UpdateRev` to that head.
pub fn plan_update(packages: &Vec<PackageHead>) -> (r: Vec<LockfileChange>)
    ensures
        r@.map_values(|c: LockfileChange| c@) == planned(packages@.map_values(|p: PackageHead| p@)),
{
    let mut r: Vec<LockfileChange> = Vec::new();
    let mut i: usize = 0;
    while i < packages.len()
        invariant
            i <= packages@.len(),
            r@.map_values(|c: LockfileChange| c@) == planned(packages@.map_values(|p: PackageHead| p@).subrange(0, i as int)),
        decreases packages@.len() - i,
    {
        let p = &packages[i];
        let ghost before = r@.map_values(|c: LockfileChange| c@);
        proof {
            let all = packages@.map_values(|p: PackageHead| p@);
            assert(all.subrange(0, i + 1).drop_last() =~= all.subrange(0, i as int));
        }
        if p.head != p.locked_rev {
            r.push(LockfileChange::UpdateRev(p.name.clone(), p.head.clone()));
            assert(r@.map_values(|c: LockfileChange| c@) =~= before.push((p.name@, p.head@)));
        }
        i = i + 1;
    }
    assert(packages@.map_values(|p: PackageHead| p@).subrange(0, packages@.len() as int) =~= packages@.map_values(|p: PackageHead| p@));
    r
}


/// `regex::Regex`, a compiled pattern, held opaque.
#[verifier::external_type_specification]
#[verifier::external_body]
pub struct ExRegex(regex::Regex);

/// `regex::Error`, carried through unread in `LsRemoteError::Pattern`.
#[verifier::external_type_specification]
#[verifier::external_body]
pub struct ExRegexError(regex::Error);

/// A compiled regular expression with the pattern it was compiled from.
pub struct LinePattern {
    re: regex::Regex,
    source: Ghost<Seq<char>>,
}

/// The groups of the leftmost-first match of `pattern` in `haystack`, each
/// where it took part; `None` where nothing matches.
pub uninterp spec fn regex_captures(pattern: Seq<char>, haystack: Seq<char>) -> Option<Seq<Option<Seq<char>>>>;

pub open spec fn groups_view(g: Seq<Option<String>>) -> Seq<Option<Seq<char>>> {
    g.map_values(|o: Option<String>| match o {
        Some(s) => Some(s@),
        None => None,
    })
}

/// Relies on `regex::Regex::new`: compiles the pattern.
#[verifier::external_body]
fn compile(pattern: &str) -> (r: Result<LinePattern, regex::Error>)
    ensures
        r matches Ok(p) ==> p.source@ == pattern@,
{
    regex::Regex::new(pattern).map(|re| LinePattern { re, source: Ghost(pattern@) })
}

/// Relies on `regex::Regex::captures` and `regex::Captures::iter`: the groups
/// of the leftmost-first match, group 0 being the whole match.
#[verifier::external_body]
fn captures(p: &LinePattern, haystack: &str) -> (r: Option<Vec<Option<String>>>)
    ensures
        r matches Some(g) ==> regex_captures(p.source@, haystack@) == Some(groups_view(g@)),
        r is None ==> regex_captures(p.source@, haystack@) is None,
{
    p.re.captures(haystack).map(|c| c.iter().map(|m| m.map(|m| m.as_str().to_string())).collect())
}

/// A symbolic ref line, `ref: <target> <name>`.
pub open spec fn symref_pattern() -> Seq<char> {
    "ref: ([^\\s]+)\\s+([^\\s]+)"@
}

/// A revision line, `<hex revision> <target>`.
pub open spec fn tip_pattern() -> Seq<char> {
    "([0-9a-f]+)\\s+([^\\s]+)"@
}

/// One line of `git ls-remote --symref`.
#[derive(Debug, PartialEq, Eq, Clone)]
pub enum GitLsRemoteLine {
    SymRef { target: String, name: String },
    Branch { rev: String, target: String },
}

/// The value of a line of `git ls-remote --symref`.
pub enum LineView {
    SymRef { target: Seq<char>, name: Seq<char> },
    Branch { rev: Seq<char>, target: Seq<char> },
}

impl View for GitLsRemoteLine {
    type V = LineView;

    open spec fn view(&self) -> LineView {
        match self {
            GitLsRemoteLine::SymRef { target, name } => LineView::SymRef { target: target@, name: name@ },
            GitLsRemoteLine::Branch { rev, target } => LineView::Branch { rev: rev@, target: target@ },
        }
    }
}

/// Why a line of `git ls-remote` output could not be read.
#[derive(Debug)]
pub enum LsRemoteError {
    /// A pattern did not compile.
    Pattern(regex::Error),
    /// The line, which matches neither form.
    Unparsable(String),
}

/// Groups one and two of a match, where both took part.
pub open spec fn two_groups(c: Option<Seq<Option<Seq<char>>>>) -> Option<(Seq<char>, Seq<char>)> {
    match c {
        Some(g) => if g.len() >= 3 && g[1] is Some && g[2] is Some {
            Some((g[1].unwrap(), g[2].unwrap()))
        } else {
            None
        },
        None => None,
    }
}

/// The line read from the matches of the two forms: a symbolic ref first,
/// then a revision line.
pub open spec fn line_of(sym: Option<Seq<Option<Seq<char>>>>, tip: Option<Seq<Option<Seq<char>>>>) -> Option<LineView> {
    match two_groups(sym) {
        Some((t, n)) => Some(LineView::SymRef { target: t, name: n }),
        None => match two_groups(tip) {
            Some((r, t)) => Some(LineView::Branch { rev: r, target: t }),
            None => None,
        },
    }
}

fn two_groups_of(c: Option<Vec<Option<String>>>) -> (r: Option<(String, String)>)
    ensures
        r matches Some(p) ==> two_groups(match c { Some(g) => Some(groups_view(g@)), None => None }) == Some((p.0@, p.1@)),
        r is None ==> two_groups(match c { Some(g) => Some(groups_view(g@)), None => None }) is None,
{
    match c {
        None => None,
        Some(g) => {
            if g.len() >= 3 {
                match (&g[1], &g[2]) {
                    (Some(a), Some(b)) => Some((a.clone(), b.clone())),
                    _ => None,
                }
            } else {
                None
            }
        },
    }
}

/// Reads a line from the groups that the two forms matched in it.
pub fn line_from_captures(line: &str, sym: Option<Vec<Option<String>>>, tip: Option<Vec<Option<String>>>) -> (r: Result<GitLsRemoteLine, LsRemoteError>)
    ensures
        ({
            let l = line_of(
                match sym { Some(g) => Some(groups_view(g@)), None => None },
                match tip { Some(g) => Some(groups_view(g@)), None => None },
            );
            &&& r matches Ok(v) ==> l == Some(v@)
            &&& r matches Err(e) ==> l is None && (e matches LsRemoteError::Unparsable(s) && s@ == line@)
            &&& l is Some ==> r is Ok
        }),
{
    match two_groups_of(sym) {
        Some((target, name)) => Ok(GitLsRemoteLine::SymRef { target, name }),
        None => match two_groups_of(tip) {
            Some((rev, target)) => Ok(GitLsRemoteLine::Branch { rev, target }),
            None => Err(LsRemoteError::Unparsable(line.to_owned())),
        },
    }
}

/// Reads one line of `git ls-remote --symref` output.
pub fn parse_git_ls_remote_line(input: &str) -> (r: Result<GitLsRemoteLine, LsRemoteError>)
    ensures
        r matches Ok(v) ==> line_of(regex_captures(symref_pattern(), input@), regex_captures(tip_pattern(), input@)) == Some(v@),
        r matches Err(LsRemoteError::Unparsable(s)) ==> s@ == input@ && line_of(
            regex_captures(symref_pattern(), input@),
            regex_captures(tip_pattern(), input@),
        ) is None,
{
    let sym_re = match compile("ref: ([^\\s]+)\\s+([^\\s]+)") {
        Ok(p) => p,
        Err(e) => {
            return Err(LsRemoteError::Pattern(e));
        },
    };
    let tip_re = match compile("([0-9a-f]+)\\s+([^\\s]+)") {
        Ok(p) => p,
        Err(e) => {
            return Err(LsRemoteError::Pattern(e));
        },
    };
    let sym = captures(&sym_re, input);
    let tip = captures(&tip_re, input);
    line_from_captures(input, sym, tip)
}

/// `t` without a leading `refs/heads/`.
pub open spec fn strip_heads(t: Seq<char>) -> Seq<char> {
    let p = "refs/heads/"@;
    if t.len() >= p.len() && t.subrange(0, p.len() as int) == p {
        t.subrange(p.len() as int, t.len() as int)
    } else {
        t
    }
}

/// The target of the first symbolic ref line.
pub open spec fn first_symref(ls: Seq<LineView>) -> Option<Seq<char>>
    decreases ls.len(),
{
    if ls.len() == 0 {
        None
    } else {
        match ls[0] {
            LineView::SymRef { target, .. } => Some(target),
            _ => first_symref(ls.drop_first()),
        }
    }
}

/// The revision of the first revision line.
pub open spec fn first_rev(ls: Seq<LineView>) -> Option<Seq<char>>
    decreases ls.len(),
{
    if ls.len() == 0 {
        None
    } else {
        match ls[0] {
            LineView::Branch { rev, .. } => Some(rev),
            _ => first_rev(ls.drop_first()),
        }
    }
}

/// Why no branch head could be chosen.
#[derive(Clone, Copy, Debug, PartialEq, Eq)]
pub enum HeadError {
    /// No line names a revision.
    NoRevision,
    /// No branch was asked for and no symbolic ref names a default one.
    NoDefaultBranch,
}

fn strip_heads_exec(t: &String) -> (r: String)
    ensures
        r@ == strip_heads(t@),
{
    let p = "refs/heads/";
    proof {
        reveal_strlit("refs/heads/");
    }
    let plen = p.unicode_len();
    let tlen = t.as_str().unicode_len();
    if tlen < plen {
        return t.clone();
    }
    let mut i: usize = 0;
    while i < plen
        invariant
            p@ == "refs/heads/"@,
            plen == p@.len(),
            tlen == t@.len(),
            plen <= tlen,
            i <= plen,
            forall|j: int| 0 <= j < i ==> #[trigger] t@[j] == p@[j],
        decreases plen - i,
    {
        if t.as_str().get_char(i) != p.get_char(i) {
            proof {
                assert(t@.subrange(0, p@.len() as int)[i as int] != p@[i as int]);
                assert(t@.subrange(0, p@.len() as int) != p@);
            }
            return t.clone();
        }
        i = i + 1;
    }
    assert(t@.subrange(0, p@.len() as int) =~= p@);
    t.as_str().substring_char(plen, tlen).to_owned()
}

/// Chooses the revision and branch name from `git ls-remote --symref`
/// lines: the first revision line's revision, and the branch asked for or
/// else the first symbolic ref's target without `refs/heads/`.
pub fn choose_branch_head(lines: &Vec<GitLsRemoteLine>, branch_name: Option<&str>) -> (r: Result<(GitRevision, String), HeadError>)
    ensures
        ({
            let ls = lines@.map_values(|l: GitLsRemoteLine| l@);
            match first_rev(ls) {
                None => r == Err::<(GitRevision, String), HeadError>(HeadError::NoRevision),
                Some(rev) => match branch_name {
                    Some(b) => (r matches Ok(v) && v.0@ == rev && v.1@ == b@),
                    None => match first_symref(ls) {
                        Some(t) => (r matches Ok(v) && v.0@ == rev && v.1@ == strip_heads(t)),
                        None => r == Err::<(GitRevision, String), HeadError>(HeadError::NoDefaultBranch),
                    },
                },
            }
        }),
{
    let ghost ls = lines@.map_values(|l: GitLsRemoteLine| l@);
    assert(ls.subrange(0, ls.len() as int) =~= ls);
    let mut def_branch: Option<String> = None;
    let mut i: usize = 0;
    while i < lines.len()
        invariant
            i <= lines@.len(),
            ls == lines@.map_values(|l: GitLsRemoteLine| l@),
            def_branch is None ==> first_symref(ls) == first_symref(ls.subrange(i as int, ls.len() as int)),
            def_branch matches Some(d) ==> (first_symref(ls) matches Some(t) && d@ == strip_heads(t)),
        decreases lines@.len() - i,
    {
        proof {
            assert(ls.subrange(i as int, ls.len() as int).drop_first() =~= ls.subrange(i + 1, ls.len() as int));
        }
        match &lines[i] {
            GitLsRemoteLine::SymRef { target, .. } => {
                if def_branch.is_none() {
                    def_branch = Some(strip_heads_exec(target));
                }
            },
            _ => {},
        }
        i = i + 1;
    }
    let mut rev: Option<String> = None;
    let mut i: usize = 0;
    while i < lines.len() && rev.is_none()
        invariant
            i <= lines@.len(),
            ls == lines@.map_values(|l: GitLsRemoteLine| l@),
            rev is None ==> first_rev(ls) == first_rev(ls.subrange(i as int, ls.len() as int)),
            rev matches Some(v) ==> first_rev(ls) == Some(v@),
        decreases lines@.len() - i,
    {
        proof {
            assert(ls.subrange(i as int, ls.len() as int).drop_first() =~= ls.subrange(i + 1, ls.len() as int));
        }
        match &lines[i] {
            GitLsRemoteLine::Branch { rev: r, .. } => {
                rev = Some(r.clone());
            },
            _ => {},
        }
        i = i + 1;
    }
    let rev = match rev {
        Some(v) => v,
        None => {
            return Err(HeadError::NoRevision);
        },
    };
    match branch_name {
        Some(b) => Ok((rev, b.to_owned())),
        None => match def_branch {
            Some(d) => Ok((rev, d)),
            None => Err(HeadError::NoDefaultBranch),
        },
    }
}

} // verus!
