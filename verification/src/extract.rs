//! Change extractor: validates the edited listing against the snapshot and
//! derives the minimal list of changes. The validation rules apply in a
//! fixed order, each checked in full over the whole listing before the next
//! — line count, then empty names, then duplicated names — and the first
//! failing rule decides the reported error.

use vstd::prelude::*;
use vstd::string::*;
use crate::codec::{split_lines, join_lines, lemma_split_join, parse_listing};
use crate::executor::valid_rename_batch;
use crate::model::{
    views, entry_names, change_views, change_source, change_target, is_source, wf_name, join_path,
    join_path_exec, lemma_join_path_injective, lemma_wf_snapshot_distinct_paths, str_eq,
    wf_snapshot, Change, ChangeModel, DirectoryEntry, ErrorModel, Mode, QuirenError,
};

verus! {

/// The empty-name check over lines `i` and later: the first empty line
/// fails it, and the error carries that entry's name.
pub open spec fn first_empty_error(
    lines: Seq<Seq<char>>,
    entries: Seq<DirectoryEntry>,
    i: int,
) -> Option<ErrorModel>
    decreases lines.len() - i,
{
    if i < 0 || i >= lines.len() {
        None
    } else if lines[i].len() == 0 {
        Some(ErrorModel::EmptyName(entries[i]@.name))
    } else {
        first_empty_error(lines, entries, i + 1)
    }
}

/// The duplicate check over lines `i` and later: the first line whose text
/// some other line repeats fails it, and the error carries that text.
pub open spec fn first_duplicate_error(lines: Seq<Seq<char>>, i: int) -> Option<ErrorModel>
    decreases lines.len() - i,
{
    if i < 0 || i >= lines.len() {
        None
    } else if exists|j: int| 0 <= j < lines.len() && j != i && lines[j] == lines[i] {
        Some(ErrorModel::DuplicateName(lines[i]))
    } else {
        first_duplicate_error(lines, i + 1)
    }
}

/// The validation verdict for rename mode, each rule applied in full before
/// the next: the line count first, then empty names, then duplicated names.
/// The first failing rule decides the reported error.
pub open spec fn rename_error(
    lines: Seq<Seq<char>>,
    entries: Seq<DirectoryEntry>,
) -> Option<ErrorModel> {
    if lines.len() != entries.len() {
        Some(ErrorModel::EntryCountMismatch(entries.len() as nat, lines.len() as nat))
    } else if first_empty_error(lines, entries, 0) is Some {
        first_empty_error(lines, entries, 0)
    } else {
        first_duplicate_error(lines, 0)
    }
}

/// The renames derived from a validated listing: one per index whose line
/// differs from the entry's name, in index order; unchanged lines derive
/// nothing.
pub open spec fn spec_renames(
    lines: Seq<Seq<char>>,
    dir: Seq<char>,
    entries: Seq<DirectoryEntry>,
) -> Seq<ChangeModel>
    decreases lines.len(),
{
    if lines.len() == 0 {
        Seq::empty()
    } else {
        let prefix = spec_renames(lines.drop_last(), dir, entries);
        let i = lines.len() - 1;
        if lines[i] == entries[i]@.name {
            prefix
        } else {
            prefix.push(
                ChangeModel::Rename { from: entries[i]@.path, to: join_path(dir, lines[i]) },
            )
        }
    }
}

/// The deletions derived in delete mode: one per entry whose name appears on
/// no line, in snapshot order. Only name membership matters; neither the
/// position nor the text of the remaining lines plays a part.
pub open spec fn spec_deletions(
    lines: Seq<Seq<char>>,
    entries: Seq<DirectoryEntry>,
) -> Seq<ChangeModel>
    decreases entries.len(),
{
    if entries.len() == 0 {
        Seq::empty()
    } else {
        let prefix = spec_deletions(lines, entries.drop_last());
        let e = entries.last();
        if lines.contains(e@.name) {
            prefix
        } else {
            prefix.push(ChangeModel::Delete { path: e@.path })
        }
    }
}

/// Validate the edited text against the snapshot and derive the renames.
#[verifier::loop_isolation(false)]
pub fn extract_renames(edited: &str, dir: &str, entries: &Vec<DirectoryEntry>) -> (r: Result<
    Vec<Change>,
    QuirenError,
>)
    ensures
        match r {
            Ok(changes) => rename_error(split_lines(edited@), entries@) is None && change_views(
                changes@,
            ) == spec_renames(split_lines(edited@), dir@, entries@),
            Err(e) => rename_error(split_lines(edited@), entries@) == Some(e@),
        },
{
    let lines = parse_listing(edited);
    let ghost lv = split_lines(edited@);
    let n = lines.len();
    if n != entries.len() {
        return Err(QuirenError::EntryCountMismatch(entries.len(), n));
    }
    let mut i: usize = 0;
    while i < n
        invariant
            n == lines.len(),
            n == entries.len(),
            lv == views(lines@),
            lv.len() == n,
            0 <= i <= n,
            first_empty_error(lv, entries@, 0) == first_empty_error(lv, entries@, i as int),
        decreases n - i,
    {
        proof {
            assert(lv[i as int] == lines@[i as int]@);
        }
        if lines[i].as_str().is_empty() {
            let err = QuirenError::EmptyName(entries[i].original_name.clone());
            proof {
                assert(first_empty_error(lv, entries@, i as int) == Some(
                    ErrorModel::EmptyName(entries@[i as int]@.name),
                ));
                assert(err@ == ErrorModel::EmptyName(entries@[i as int]@.name));
                assert(rename_error(split_lines(edited@), entries@) == Some(err@));
            }
            return Err(err);
        }
        proof {
            assert(lv[i as int].len() > 0);
        }
        i += 1;
    }
    proof {
        assert(first_empty_error(lv, entries@, 0) is None);
    }
    let mut i: usize = 0;
    while i < n
        invariant
            n == lines.len(),
            n == entries.len(),
            lv == views(lines@),
            lv.len() == n,
            0 <= i <= n,
            first_empty_error(lv, entries@, 0) is None,
            first_duplicate_error(lv, 0) == first_duplicate_error(lv, i as int),
        decreases n - i,
    {
        let mut j: usize = 0;
        let mut dup = false;
        while j < n
            invariant
                n == lines.len(),
                lv == views(lines@),
                0 <= i < n,
                0 <= j <= n,
                dup <==> exists|k: int| 0 <= k < j && k != i && lv[k] == lv[i as int],
            decreases n - j,
        {
            proof {
                assert(lv[j as int] == lines@[j as int]@);
                assert(lv[i as int] == lines@[i as int]@);
            }
            if j != i && lines[j] == lines[i] {
                dup = true;
                proof {
                    assert(0 <= j < j + 1 && j != i && lv[j as int] == lv[i as int]);
                }
            }
            j += 1;
        }
        if dup {
            let err = QuirenError::DuplicateName(lines[i].clone());
            proof {
                assert(first_duplicate_error(lv, i as int) == Some(
                    ErrorModel::DuplicateName(lv[i as int]),
                ));
                assert(err@ == ErrorModel::DuplicateName(lv[i as int]));
                assert(rename_error(split_lines(edited@), entries@) == Some(err@));
            }
            return Err(err);
        }
        proof {
            assert(!(exists|j: int| 0 <= j < lv.len() && j != i && lv[j] == lv[i as int]));
        }
        i += 1;
    }
    let mut changes: Vec<Change> = Vec::new();
    let mut i: usize = 0;
    proof {
        assert(change_views(changes@) =~= spec_renames(lv.take(0), dir@, entries@));
    }
    while i < n
        invariant
            n == lines.len(),
            n == entries.len(),
            lv == views(lines@),
            0 <= i <= n,
            change_views(changes@) == spec_renames(lv.take(i as int), dir@, entries@),
        decreases n - i,
    {
        proof {
            assert(lv.take(i + 1).drop_last() =~= lv.take(i as int));
            assert(lv.take(i + 1).last() == lv[i as int]);
        }
        if !(lines[i] == entries[i].original_name) {
            let from = entries[i].original_path.clone();
            let to = join_path_exec(dir, lines[i].as_str());
            let ghost old_changes = changes@;
            changes.push(Change::Rename { from, to });
            proof {
                assert(change_views(changes@) =~= change_views(old_changes).push(
                    ChangeModel::Rename {
                        from: entries@[i as int]@.path,
                        to: join_path(dir@, lv[i as int]),
                    },
                ));
            }
        }
        i += 1;
    }
    proof {
        assert(lv.take(n as int) =~= lv);
    }
    Ok(changes)
}

/// Derive the deletions from the edited text; delete mode never rejects a
/// listing, so this always succeeds.
#[verifier::loop_isolation(false)]
pub fn extract_deletions(edited: &str, entries: &Vec<DirectoryEntry>) -> (r: Result<
    Vec<Change>,
    QuirenError,
>)
    ensures
        match r {
            Ok(changes) => change_views(changes@) == spec_deletions(
                split_lines(edited@),
                entries@,
            ),
            Err(_) => false,
        },
{
    let lines = parse_listing(edited);
    let ghost lv = split_lines(edited@);
    let mut changes: Vec<Change> = Vec::new();
    let mut i: usize = 0;
    proof {
        assert(change_views(changes@) =~= spec_deletions(lv, entries@.take(0)));
    }
    while i < entries.len()
        invariant
            lv == views(lines@),
            0 <= i <= entries.len(),
            change_views(changes@) == spec_deletions(lv, entries@.take(i as int)),
        decreases entries.len() - i,
    {
        let mut j: usize = 0;
        let mut found = false;
        while j < lines.len()
            invariant
                lv == views(lines@),
                0 <= i < entries.len(),
                0 <= j <= lines.len(),
                found <==> exists|k: int| 0 <= k < j && lv[k] == entries@[i as int]@.name,
            decreases lines.len() - j,
        {
            proof {
                assert(lv[j as int] == lines@[j as int]@);
            }
            if str_eq(lines[j].as_str(), entries[i].original_name.as_str()) {
                found = true;
                proof {
                    assert(0 <= j < j + 1 && lv[j as int] == entries@[i as int]@.name);
                }
            }
            j += 1;
        }
        proof {
            assert(found == lv.contains(entries@[i as int]@.name));
            assert(entries@.take(i + 1).drop_last() =~= entries@.take(i as int));
            assert(entries@.take(i + 1).last() == entries@[i as int]);
        }
        if !found {
            let ghost old_changes = changes@;
            changes.push(Change::Delete { path: entries[i].original_path.clone() });
            proof {
                assert(change_views(changes@) =~= change_views(old_changes).push(
                    ChangeModel::Delete { path: entries@[i as int]@.path },
                ));
            }
        }
        i += 1;
    }
    proof {
        assert(entries@.take(entries@.len() as int) =~= entries@);
    }
    Ok(changes)
}

/// Derive the change batch for the chosen mode: rename mode validates the
/// listing and compares line by line; delete mode keys on name membership
/// alone and never rejects.
pub fn extract_changes(
    edited: &str,
    dir: &str,
    entries: &Vec<DirectoryEntry>,
    mode: Mode,
) -> (r: Result<Vec<Change>, QuirenError>)
    ensures
        match mode {
            Mode::Rename => (match r {
                Ok(changes) => rename_error(split_lines(edited@), entries@) is None
                    && change_views(changes@) == spec_renames(
                    split_lines(edited@),
                    dir@,
                    entries@,
                ),
                Err(e) => rename_error(split_lines(edited@), entries@) == Some(e@),
            }),
            Mode::Delete => (match r {
                Ok(changes) => change_views(changes@) == spec_deletions(
                    split_lines(edited@),
                    entries@,
                ),
                Err(_) => false,
            }),
        },
{
    match mode {
        Mode::Rename => extract_renames(edited, dir, entries),
        Mode::Delete => extract_deletions(edited, entries),
    }
}

} // verus!

// --- Laws -------------------------------------------------------------
//
// The statements below are the extractor's general guarantees, proved once
// and for all inputs from the spec functions that the executable contracts
// use.

verus! {

/// Validation-order law: whenever the line count differs from the snapshot
/// length, the reported error is the count mismatch, whatever else may be
/// wrong with the lines' content.
pub proof fn lemma_validation_order(lines: Seq<Seq<char>>, entries: Seq<DirectoryEntry>)
    requires
        lines.len() != entries.len(),
    ensures
        rename_error(lines, entries) == Some(
            ErrorModel::EntryCountMismatch(entries.len() as nat, lines.len() as nat),
        ),
{
}

proof fn lemma_no_empty_scan(lines: Seq<Seq<char>>, entries: Seq<DirectoryEntry>, i: int)
    requires
        0 <= i <= lines.len(),
        forall|k: int| 0 <= k < lines.len() ==> (#[trigger] lines[k]).len() > 0,
    ensures
        first_empty_error(lines, entries, i) is None,
    decreases lines.len() - i,
{
    if i < lines.len() {
        lemma_no_empty_scan(lines, entries, i + 1);
    }
}

proof fn lemma_no_duplicate_scan(lines: Seq<Seq<char>>, i: int)
    requires
        0 <= i <= lines.len(),
        forall|k1: int, k2: int| 0 <= k1 < k2 < lines.len() ==> lines[k1] != lines[k2],
    ensures
        first_duplicate_error(lines, i) is None,
    decreases lines.len() - i,
{
    if i < lines.len() {
        assert forall|j: int| 0 <= j < lines.len() && j != i implies lines[j] != lines[i] by {
            if j < i {
                assert(lines[j] != lines[i]);
            } else {
                assert(lines[i] != lines[j]);
            }
        }
        lemma_no_duplicate_scan(lines, i + 1);
    }
}

proof fn lemma_renames_unchanged(lines: Seq<Seq<char>>, dir: Seq<char>, entries: Seq<DirectoryEntry>)
    requires
        lines.len() <= entries.len(),
        forall|k: int| 0 <= k < lines.len() ==> #[trigger] lines[k] == entries[k]@.name,
    ensures
        spec_renames(lines, dir, entries) == Seq::<ChangeModel>::empty(),
    decreases lines.len(),
{
    if lines.len() > 0 {
        assert(forall|k: int|
            0 <= k < lines.drop_last().len() ==> #[trigger] lines.drop_last()[k] == lines[k]);
        lemma_renames_unchanged(lines.drop_last(), dir, entries);
    }
}

/// Identity law: serializing a well-formed snapshot and handing the text back
/// unedited validates cleanly and derives no change at all.
pub proof fn lemma_identity(entries: Seq<DirectoryEntry>, dir: Seq<char>)
    requires
        forall|i: int| 0 <= i < entries.len() ==> wf_name((#[trigger] entries[i])@.name),
        forall|i: int, j: int| 0 <= i < j < entries.len() ==> entries[i]@.name != entries[j]@.name,
    ensures
        rename_error(split_lines(join_lines(entry_names(entries))), entries) is None,
        spec_renames(split_lines(join_lines(entry_names(entries))), dir, entries)
            == Seq::<ChangeModel>::empty(),
{
    let names = entry_names(entries);
    assert(forall|i: int| 0 <= i < names.len() ==> wf_name(#[trigger] names[i]));
    lemma_split_join(names);
    assert(split_lines(join_lines(names)) == names);
    assert(forall|k: int| 0 <= k < names.len() ==> (#[trigger] names[k]).len() > 0);
    lemma_no_empty_scan(names, entries, 0);
    lemma_no_duplicate_scan(names, 0);
    lemma_renames_unchanged(names, dir, entries);
}

proof fn lemma_renames_shape(lines: Seq<Seq<char>>, dir: Seq<char>, entries: Seq<DirectoryEntry>)
    requires
        lines.len() <= entries.len(),
    ensures
        forall|k: int| 0 <= k < spec_renames(lines, dir, entries).len() ==> exists|i: int|
            0 <= i < lines.len() && lines[i] != entries[i]@.name
                && #[trigger] spec_renames(lines, dir, entries)[k] == (ChangeModel::Rename {
                from: entries[i]@.path,
                to: join_path(dir, lines[i]),
            }),
        forall|i: int|
            0 <= i < lines.len() && #[trigger] lines[i] != entries[i]@.name ==> spec_renames(
                lines,
                dir,
                entries,
            ).contains(
                ChangeModel::Rename { from: entries[i]@.path, to: join_path(dir, lines[i]) },
            ),
    decreases lines.len(),
{
    let r = spec_renames(lines, dir, entries);
    if lines.len() > 0 {
        let l0 = lines.drop_last();
        let last = lines.len() - 1;
        assert(forall|i: int| 0 <= i < l0.len() ==> #[trigger] l0[i] == lines[i]);
        lemma_renames_shape(l0, dir, entries);
        let p = spec_renames(l0, dir, entries);
        assert forall|k: int| 0 <= k < r.len() implies (exists|i: int|
            0 <= i < lines.len() && lines[i] != entries[i]@.name && #[trigger] r[k]
                == (ChangeModel::Rename {
                from: entries[i]@.path,
                to: join_path(dir, lines[i]),
            })) by {
            if k < p.len() {
                assert(r[k] == p[k]);
                let i = choose|i: int|
                    0 <= i < l0.len() && l0[i] != entries[i]@.name && #[trigger] p[k]
                        == ChangeModel::Rename {
                        from: entries[i]@.path,
                        to: join_path(dir, l0[i]),
                    };
                assert(0 <= i < lines.len() && lines[i] != entries[i]@.name && r[k]
                    == ChangeModel::Rename {
                    from: entries[i]@.path,
                    to: join_path(dir, lines[i]),
                });
            } else {
                assert(lines[last] != entries[last]@.name);
                assert(r[k] == ChangeModel::Rename {
                    from: entries[last]@.path,
                    to: join_path(dir, lines[last]),
                });
            }
        }
        assert forall|i: int|
            0 <= i < lines.len() && #[trigger] lines[i] != entries[i]@.name implies r.contains(
            ChangeModel::Rename { from: entries[i]@.path, to: join_path(dir, lines[i]) },
        ) by {
            let c = ChangeModel::Rename { from: entries[i]@.path, to: join_path(dir, lines[i]) };
            if i < last {
                assert(p.contains(ChangeModel::Rename {
                    from: entries[i]@.path,
                    to: join_path(dir, l0[i]),
                }));
                let k = choose|k: int| 0 <= k < p.len() && p[k] == c;
                assert(r[k] == c);
            } else {
                assert(r[r.len() - 1] == c);
            }
        }
    }
}

proof fn lemma_renames_unique(lines: Seq<Seq<char>>, dir: Seq<char>, entries: Seq<DirectoryEntry>)
    requires
        lines.len() <= entries.len(),
        forall|i: int, j: int| 0 <= i < j < entries.len() ==> entries[i]@.path != entries[j]@.path,
    ensures
        forall|k1: int, k2: int|
            0 <= k1 < k2 < spec_renames(lines, dir, entries).len() ==> change_source(
                #[trigger] spec_renames(lines, dir, entries)[k1],
            ) != change_source(#[trigger] spec_renames(lines, dir, entries)[k2]),
    decreases lines.len(),
{
    let r = spec_renames(lines, dir, entries);
    if lines.len() > 0 {
        let l0 = lines.drop_last();
        let last = lines.len() - 1;
        assert(forall|i: int| 0 <= i < l0.len() ==> #[trigger] l0[i] == lines[i]);
        lemma_renames_unique(l0, dir, entries);
        lemma_renames_shape(l0, dir, entries);
        let p = spec_renames(l0, dir, entries);
        assert forall|k1: int, k2: int|
            0 <= k1 < k2 < r.len() implies change_source(#[trigger] r[k1]) != change_source(
            #[trigger] r[k2],
        ) by {
            if k2 < p.len() {
                assert(r[k1] == p[k1] && r[k2] == p[k2]);
            } else if k2 == p.len() && r.len() == p.len() + 1 {
                assert(r[k1] == p[k1]);
                let i = choose|i: int|
                    0 <= i < l0.len() && l0[i] != entries[i]@.name && #[trigger] p[k1]
                        == ChangeModel::Rename {
                        from: entries[i]@.path,
                        to: join_path(dir, l0[i]),
                    };
                assert(change_source(r[k1]) == entries[i]@.path);
                assert(change_source(r[k2]) == entries[last]@.path);
                assert(entries[i]@.path != entries[last]@.path);
            }
        }
    }
}

/// Rename-correctness law: with distinct entry paths, every changed line
/// derives exactly one rename, from that entry's path to the directory joined
/// with the new line, and an unchanged line derives no rename at all.
pub proof fn lemma_rename_correctness(
    lines: Seq<Seq<char>>,
    dir: Seq<char>,
    entries: Seq<DirectoryEntry>,
)
    requires
        lines.len() == entries.len(),
        forall|i: int, j: int| 0 <= i < j < entries.len() ==> entries[i]@.path != entries[j]@.path,
    ensures
        forall|i: int|
            0 <= i < lines.len() && #[trigger] lines[i] != entries[i]@.name ==> spec_renames(
                lines,
                dir,
                entries,
            ).contains(
                ChangeModel::Rename { from: entries[i]@.path, to: join_path(dir, lines[i]) },
            ),
        forall|k1: int, k2: int|
            0 <= k1 < k2 < spec_renames(lines, dir, entries).len() ==> change_source(
                #[trigger] spec_renames(lines, dir, entries)[k1],
            ) != change_source(#[trigger] spec_renames(lines, dir, entries)[k2]),
        forall|i: int, k: int|
            #![trigger spec_renames(lines, dir, entries)[k], lines[i]]
            0 <= i < lines.len() && lines[i] == entries[i]@.name && 0 <= k < spec_renames(
                lines,
                dir,
                entries,
            ).len() ==> change_source(spec_renames(lines, dir, entries)[k]) != entries[i]@.path,
{
    let r = spec_renames(lines, dir, entries);
    lemma_renames_shape(lines, dir, entries);
    lemma_renames_unique(lines, dir, entries);
    assert forall|i: int, k: int|
        #![trigger r[k], lines[i]]
        0 <= i < lines.len() && lines[i] == entries[i]@.name && 0 <= k
            < r.len() implies change_source(r[k]) != entries[i]@.path by {
        let j = choose|j: int|
            0 <= j < lines.len() && lines[j] != entries[j]@.name && #[trigger] r[k]
                == ChangeModel::Rename { from: entries[j]@.path, to: join_path(dir, lines[j]) };
        assert(change_source(r[k]) == entries[j]@.path);
        if i < j {
            assert(entries[i]@.path != entries[j]@.path);
        } else if j < i {
            assert(entries[j]@.path != entries[i]@.path);
        }
    }
}

/// Delete-mode minimality law: the derived deletions depend only on which
/// entry names appear somewhere in the listing; the position and the text of
/// the other lines play no part.
pub proof fn lemma_delete_membership(
    lines1: Seq<Seq<char>>,
    lines2: Seq<Seq<char>>,
    entries: Seq<DirectoryEntry>,
)
    requires
        forall|i: int|
            0 <= i < entries.len() ==> (#[trigger] lines1.contains(entries[i]@.name)
                <==> lines2.contains(entries[i]@.name)),
    ensures
        spec_deletions(lines1, entries) == spec_deletions(lines2, entries),
    decreases entries.len(),
{
    if entries.len() > 0 {
        let e0 = entries.drop_last();
        assert(forall|i: int| 0 <= i < e0.len() ==> #[trigger] e0[i] == entries[i]);
        lemma_delete_membership(lines1, lines2, e0);
        assert(lines1.contains(entries[entries.len() - 1]@.name) <==> lines2.contains(
            entries[entries.len() - 1]@.name,
        ));
    }
}

} // verus!

verus! {

proof fn lemma_dup_scan_none_facts(lines: Seq<Seq<char>>, i: int, k: int)
    requires
        0 <= i <= k < lines.len(),
        first_duplicate_error(lines, i) is None,
    ensures
        forall|j: int| 0 <= j < lines.len() && j != k ==> lines[j] != lines[k],
    decreases k - i,
{
    if k > i {
        lemma_dup_scan_none_facts(lines, i + 1, k);
    }
}

proof fn lemma_empty_scan_reaches(
    lines: Seq<Seq<char>>,
    entries: Seq<DirectoryEntry>,
    j: int,
    i: int,
)
    requires
        0 <= j <= i < lines.len(),
        lines[i].len() == 0,
        forall|k: int| j <= k < i ==> (#[trigger] lines[k]).len() > 0,
    ensures
        first_empty_error(lines, entries, j) == Some(ErrorModel::EmptyName(entries[i]@.name)),
    decreases i - j,
{
    if j < i {
        lemma_empty_scan_reaches(lines, entries, j + 1, i);
    }
}

/// Rule-ordering law for the content checks: with the line count right, any
/// empty line decides the error — the first one, reported as its entry's
/// name — whatever duplicated names the listing also holds, even at earlier
/// lines.
pub proof fn lemma_empty_before_duplicate(
    lines: Seq<Seq<char>>,
    entries: Seq<DirectoryEntry>,
    i: int,
)
    requires
        lines.len() == entries.len(),
        0 <= i < lines.len(),
        lines[i].len() == 0,
        forall|k: int| 0 <= k < i ==> (#[trigger] lines[k]).len() > 0,
    ensures
        rename_error(lines, entries) == Some(ErrorModel::EmptyName(entries[i]@.name)),
{
    lemma_empty_scan_reaches(lines, entries, 0, i);
}

/// The batches the extractor derives meet the executor's structural
/// hypotheses: over a well-formed snapshot whose files are all on disk, a
/// validated listing yields renames with distinct sources, distinct
/// destinations and none renaming a file onto itself — so whenever every
/// occupied destination is itself renamed away and the auxiliary pool is
/// adequate, the executor's cycle-and-chain-safety law applies to them.
pub proof fn lemma_extracted_batch_valid(
    lines: Seq<Seq<char>>,
    dir: Seq<char>,
    entries: Seq<DirectoryEntry>,
    fs0: Map<Seq<char>, u64>,
    auxs: Seq<Seq<char>>,
)
    requires
        wf_snapshot(entries, dir),
        rename_error(lines, entries) is None,
        forall|i: int| 0 <= i < entries.len() ==> fs0.contains_key((#[trigger] entries[i])@.path),
        ({
            let all = spec_renames(lines, dir, entries);
            &&& (forall|k: int|
                0 <= k < all.len() && fs0.contains_key(change_target(#[trigger] all[k]))
                    ==> is_source(all, change_target(all[k])))
            &&& auxs.len() >= all.len()
            &&& (forall|t1: int, t2: int| 0 <= t1 < t2 < auxs.len() ==> auxs[t1] != auxs[t2])
            &&& (forall|t: int| 0 <= t < auxs.len() ==> !fs0.contains_key(#[trigger] auxs[t]))
            &&& (forall|t: int, k: int|
                0 <= t < auxs.len() && 0 <= k < all.len() ==> #[trigger] auxs[t] != change_source(
                    #[trigger] all[k],
                ) && auxs[t] != change_target(all[k]))
        }),
    ensures
        valid_rename_batch(spec_renames(lines, dir, entries), fs0, auxs),
{
    let all = spec_renames(lines, dir, entries);
    assert(lines.len() == entries.len());
    lemma_wf_snapshot_distinct_paths(entries, dir);
    lemma_renames_shape(lines, dir, entries);
    lemma_renames_unique(lines, dir, entries);
    assert forall|k: int| 0 <= k < all.len() implies (#[trigger] all[k]) is Rename by {
        let i = choose|i: int|
            0 <= i < lines.len() && lines[i] != entries[i]@.name && all[k] == (ChangeModel::Rename {
                from: entries[i]@.path,
                to: join_path(dir, lines[i]),
            });
    }
    assert forall|k: int| 0 <= k < all.len() implies fs0.contains_key(
        change_source(#[trigger] all[k]),
    ) by {
        let i = choose|i: int|
            0 <= i < lines.len() && lines[i] != entries[i]@.name && all[k] == (ChangeModel::Rename {
                from: entries[i]@.path,
                to: join_path(dir, lines[i]),
            });
        assert(change_source(all[k]) == entries[i]@.path);
    }
    assert forall|k: int| 0 <= k < all.len() implies change_source(#[trigger] all[k])
        != change_target(all[k]) by {
        let i = choose|i: int|
            0 <= i < lines.len() && lines[i] != entries[i]@.name && all[k] == (ChangeModel::Rename {
                from: entries[i]@.path,
                to: join_path(dir, lines[i]),
            });
        assert(entries[i]@.path == join_path(dir, entries[i]@.name));
        if join_path(dir, entries[i]@.name) == join_path(dir, lines[i]) {
            lemma_join_path_injective(dir, entries[i]@.name, lines[i]);
        }
    }
    assert forall|k1: int, k2: int| 0 <= k1 < k2 < all.len() implies change_target(all[k1])
        != change_target(all[k2]) by {
        let i1 = choose|i: int|
            0 <= i < lines.len() && lines[i] != entries[i]@.name && all[k1] == (ChangeModel::Rename {
                from: entries[i]@.path,
                to: join_path(dir, lines[i]),
            });
        let i2 = choose|i: int|
            0 <= i < lines.len() && lines[i] != entries[i]@.name && all[k2] == (ChangeModel::Rename {
                from: entries[i]@.path,
                to: join_path(dir, lines[i]),
            });
        assert(change_source(all[k1]) == entries[i1]@.path);
        assert(change_source(all[k2]) == entries[i2]@.path);
        assert(change_source(all[k1]) != change_source(all[k2]));
        assert(i1 != i2);
        assert(first_duplicate_error(lines, 0) is None);
        lemma_dup_scan_none_facts(lines, 0, i1);
        assert(lines[i2] != lines[i1]);
        if join_path(dir, lines[i1]) == join_path(dir, lines[i2]) {
            lemma_join_path_injective(dir, lines[i1], lines[i2]);
        }
        assert(change_target(all[k1]) == join_path(dir, lines[i1]));
        assert(change_target(all[k2]) == join_path(dir, lines[i2]));
    }
}

} // verus!
