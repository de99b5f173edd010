//! Core data model: operation modes, directory entries, planned changes and
//! the error vocabulary, together with their mathematical views.

use vstd::prelude::*;
use vstd::string::*;

verus! {

/// The two operation modes: rename files whose line was edited, or delete
/// files whose name no longer appears in the listing.
#[derive(Clone, Copy, Debug, PartialEq, Eq, Structural)]
pub enum Mode {
    Rename,
    Delete,
}

/// Options resolved before the pipeline runs.
#[derive(Clone, Copy, Debug, PartialEq, Eq, Structural)]
pub struct Args {
    pub mode: Mode,
    pub dryrun: bool,
    pub trash: bool,
}

/// One file present in the target directory at snapshot time. Entries are
/// frozen for the whole session; `index` is implicit as the position in the
/// snapshot vector.
pub struct DirectoryEntry {
    pub original_name: String,
    pub original_path: String,
}

/// Mathematical view of a `DirectoryEntry`.
pub struct EntryModel {
    pub name: Seq<char>,
    pub path: Seq<char>,
}

impl View for DirectoryEntry {
    type V = EntryModel;

    open spec fn view(&self) -> EntryModel {
        EntryModel { name: self.original_name@, path: self.original_path@ }
    }
}

/// A validated, directed filesystem operation derived from comparing the
/// snapshot with the edited listing.
#[derive(Debug)]
pub enum Change {
    Rename { from: String, to: String },
    Delete { path: String },
}

/// Mathematical view of a `Change`.
pub enum ChangeModel {
    Rename { from: Seq<char>, to: Seq<char> },
    Delete { path: Seq<char> },
}

impl View for Change {
    type V = ChangeModel;

    open spec fn view(&self) -> ChangeModel {
        match self {
            Change::Rename { from, to } => ChangeModel::Rename { from: from@, to: to@ },
            Change::Delete { path } => ChangeModel::Delete { path: path@ },
        }
    }
}

/// Everything that can go wrong in one attempt. Validation errors are
/// detected before any mutation; `Overwrite` aborts the conflicting change;
/// `Tempfile` means no free auxiliary name was found; `IoError` and
/// `TrashError` stand for failures of the filesystem and trash collaborators.
#[derive(Debug)]
pub enum QuirenError {
    EmptyName(String),
    DuplicateName(String),
    EntryCountMismatch(usize, usize),
    Overwrite(String, String),
    Tempfile,
    IoError,
    TrashError,
}

/// Mathematical view of a `QuirenError`.
pub enum ErrorModel {
    EmptyName(Seq<char>),
    DuplicateName(Seq<char>),
    EntryCountMismatch(nat, nat),
    Overwrite(Seq<char>, Seq<char>),
    Tempfile,
    IoError,
    TrashError,
}

impl View for QuirenError {
    type V = ErrorModel;

    open spec fn view(&self) -> ErrorModel {
        match self {
            QuirenError::EmptyName(n) => ErrorModel::EmptyName(n@),
            QuirenError::DuplicateName(n) => ErrorModel::DuplicateName(n@),
            QuirenError::EntryCountMismatch(e, a) => ErrorModel::EntryCountMismatch(
                *e as nat,
                *a as nat,
            ),
            QuirenError::Overwrite(a, b) => ErrorModel::Overwrite(a@, b@),
            QuirenError::Tempfile => ErrorModel::Tempfile,
            QuirenError::IoError => ErrorModel::IoError,
            QuirenError::TrashError => ErrorModel::TrashError,
        }
    }
}

/// The views of a sequence of strings.
pub open spec fn views(ss: Seq<String>) -> Seq<Seq<char>> {
    ss.map_values(|s: String| s@)
}

/// The views of a sequence of changes.
pub open spec fn change_views(cs: Seq<Change>) -> Seq<ChangeModel> {
    cs.map_values(|c: Change| c@)
}

/// The names of a snapshot, in order.
pub open spec fn entry_names(es: Seq<DirectoryEntry>) -> Seq<Seq<char>> {
    es.map_values(|e: DirectoryEntry| e.original_name@)
}

/// The path a change reads from: the file a rename moves away, or the file a
/// deletion removes.
pub open spec fn change_source(c: ChangeModel) -> Seq<char> {
    match c {
        ChangeModel::Rename { from, .. } => from,
        ChangeModel::Delete { path } => path,
    }
}

/// The path a change writes to: the destination of a rename, or, for a
/// deletion, the path it removes.
pub open spec fn change_target(c: ChangeModel) -> Seq<char> {
    match c {
        ChangeModel::Rename { to, .. } => to,
        ChangeModel::Delete { path } => path,
    }
}

/// Whether some change in the batch has `p` as its source, so that the file
/// now at `p` is itself about to be renamed away or deleted.
pub open spec fn is_source(changes: Seq<ChangeModel>, p: Seq<char>) -> bool {
    exists|j: int| 0 <= j < changes.len() && change_source(#[trigger] changes[j]) == p
}

/// A usable filename: non-empty, and free of the line separator, which the
/// listing codec cannot represent.
pub open spec fn wf_name(s: Seq<char>) -> bool {
    s.len() > 0 && !s.contains('\n')
}

/// The path of a directory member: the directory joined with the member name.
pub open spec fn join_path(dir: Seq<char>, name: Seq<char>) -> Seq<char> {
    dir + seq!['/'] + name
}

/// A well-formed snapshot: every name usable and distinct, every path the
/// join of the directory with the entry's name.
pub open spec fn wf_snapshot(entries: Seq<DirectoryEntry>, dir: Seq<char>) -> bool {
    &&& forall|i: int| 0 <= i < entries.len() ==> wf_name(#[trigger] entries[i]@.name)
    &&& forall|i: int, j: int|
        0 <= i < j < entries.len() ==> entries[i]@.name != entries[j]@.name
    &&& forall|i: int| 0 <= i < entries.len() ==> #[trigger] entries[i]@.path == join_path(
        dir,
        entries[i]@.name,
    )
}

/// Joining distinct names to one directory yields distinct paths.
pub proof fn lemma_join_path_injective(dir: Seq<char>, a: Seq<char>, b: Seq<char>)
    requires
        join_path(dir, a) == join_path(dir, b),
    ensures
        a == b,
{
    let pa = join_path(dir, a);
    let pb = join_path(dir, b);
    assert(pa.len() == dir.len() + 1 + a.len());
    assert(pb.len() == dir.len() + 1 + b.len());
    assert(a.len() == b.len());
    assert forall|i: int| 0 <= i < a.len() implies a[i] == b[i] by {
        assert(pa[dir.len() + 1 + i] == a[i]);
        assert(pb[dir.len() + 1 + i] == b[i]);
    }
    assert(a =~= b);
}

/// In a well-formed snapshot the paths are pairwise distinct.
pub proof fn lemma_wf_snapshot_distinct_paths(entries: Seq<DirectoryEntry>, dir: Seq<char>)
    requires
        wf_snapshot(entries, dir),
    ensures
        forall|i: int, j: int|
            0 <= i < j < entries.len() ==> entries[i]@.path != entries[j]@.path,
{
    assert forall|i: int, j: int|
        0 <= i < j < entries.len() implies entries[i]@.path != entries[j]@.path by {
        if entries[i]@.path == entries[j]@.path {
            lemma_join_path_injective(dir, entries[i]@.name, entries[j]@.name);
        }
    }
}

/// Join the directory and a member name into a path.
pub fn join_path_exec(dir: &str, name: &str) -> (r: String)
    ensures
        r@ == join_path(dir@, name@),
{
    let mut s = String::from_str(dir);
    s.append("/");
    s.append(name);
    proof {
        reveal_strlit("/");
        assert("/"@ =~= seq!['/']);
        assert(s@ =~= join_path(dir@, name@));
    }
    s
}

/// Character-exact string comparison, specified over the views.
#[verifier::loop_isolation(false)]
pub fn str_eq(a: &str, b: &str) -> (r: bool)
    ensures
        r == (a@ == b@),
{
    let na = a.unicode_len();
    let nb = b.unicode_len();
    if na != nb {
        return false;
    }
    let mut i: usize = 0;
    while i < na
        invariant
            na == a@.len(),
            na == b@.len(),
            0 <= i <= na,
            forall|k: int| 0 <= k < i ==> a@[k] == b@[k],
        decreases na - i,
    {
        if a.get_char(i) != b.get_char(i) {
            return false;
        }
        i += 1;
    }
    proof {
        assert(a@ =~= b@);
    }
    true
}

} // verus!
