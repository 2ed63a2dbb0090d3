//! Applying a plan: the check that nothing would be overwritten, the file
//! system operations that carry the plan out, and the removal of stray
//! folders that the moves have emptied. The operations are handed out as a
//! list; carrying them out is the caller's part.

use vstd::prelude::*;
use crate::paths::{is_under, parent, parent_of, under};
use crate::planner::is_stray_folder;
use crate::record_manager::{ActionView, PlanView, RecordManager, RecordOrganizationPlan};
use crate::scanner::{
    entries_at_or_under, listed, views, DriveScanner, FileInfo, FileInfoView,
};

verus! {

/// One change to the file system.
#[derive(Debug, PartialEq, Eq)]
pub enum FsOperation {
    /// Create the directory and every directory above it that is missing;
    /// nothing happens where it is there.
    CreateDirAll { path: String },
    /// Give the file at `source` the path `target`.
    Rename { source: String, target: String },
    /// Remove the directory, which is empty.
    RemoveDir { path: String },
}

/// An operation as plain values.
pub enum FsOperationView {
    CreateDirAll { path: Seq<char> },
    Rename { source: Seq<char>, target: Seq<char> },
    RemoveDir { path: Seq<char> },
}

impl View for FsOperation {
    type V = FsOperationView;

    open spec fn view(&self) -> FsOperationView {
        match self {
            FsOperation::CreateDirAll { path } => FsOperationView::CreateDirAll { path: path@ },
            FsOperation::Rename { source, target } => FsOperationView::Rename {
                source: source@,
                target: target@,
            },
            FsOperation::RemoveDir { path } => FsOperationView::RemoveDir { path: path@ },
        }
    }
}

/// Operations as plain values.
pub open spec fn operation_views(operations: Seq<FsOperation>) -> Seq<FsOperationView> {
    Seq::new(operations.len(), |i: int| operations[i]@)
}

/// Why a plan is not applied.
#[derive(Debug, PartialEq, Eq)]
pub enum ApplyError {
    /// Two actions have the same target.
    DuplicateTarget { target: String },
    /// The target of an action is there already.
    TargetExists { source: String, target: String },
}

/// A refusal as plain values.
pub enum ApplyErrorView {
    DuplicateTarget { target: Seq<char> },
    TargetExists { source: Seq<char>, target: Seq<char> },
}

impl View for ApplyError {
    type V = ApplyErrorView;

    open spec fn view(&self) -> ApplyErrorView {
        match self {
            ApplyError::DuplicateTarget { target } => ApplyErrorView::DuplicateTarget {
                target: target@,
            },
            ApplyError::TargetExists { source, target } => ApplyErrorView::TargetExists {
                source: source@,
                target: target@,
            },
        }
    }
}

/// An earlier action has the target of the action at `at`.
pub open spec fn repeats_target(actions: Seq<ActionView>, at: int) -> bool {
    exists|j: int| 0 <= j < at && (#[trigger] actions[j]).target == actions[at].target
}

/// What is wrong with the action at `at`, if anything: its target is that
/// of an earlier action, or the scan lists its target.
pub open spec fn conflict_at(actions: Seq<ActionView>, entries: Seq<FileInfoView>, at: int) -> Option<
    ApplyErrorView,
> {
    if repeats_target(actions, at) {
        Some(ApplyErrorView::DuplicateTarget { target: actions[at].target })
    } else if listed(entries, actions[at].target) {
        Some(
            ApplyErrorView::TargetExists {
                source: actions[at].source,
                target: actions[at].target,
            },
        )
    } else {
        None
    }
}

/// What is wrong with the first of the first `count` actions with which
/// something is wrong.
pub open spec fn first_conflict(actions: Seq<ActionView>, entries: Seq<FileInfoView>, count: nat) -> Option<
    ApplyErrorView,
>
    decreases count,
{
    if count == 0 {
        None
    } else {
        match first_conflict(actions, entries, (count - 1) as nat) {
            Some(conflict) => Some(conflict),
            None => conflict_at(actions, entries, count - 1),
        }
    }
}

/// The creation of each folder, in order.
pub open spec fn folder_operations(folders: Seq<Seq<char>>) -> Seq<FsOperationView> {
    Seq::new(folders.len(), |i: int| FsOperationView::CreateDirAll { path: folders[i] })
}

/// The operations of one action: the creation of the target's folder where
/// the scan does not list it, then the move.
pub open spec fn action_operations(entries: Seq<FileInfoView>, action: ActionView) -> Seq<
    FsOperationView,
> {
    let rename = FsOperationView::Rename { source: action.source, target: action.target };
    match parent_of(action.target) {
        Some(folder) => if listed(entries, folder) {
            seq![rename]
        } else {
            seq![FsOperationView::CreateDirAll { path: folder }, rename]
        },
        None => seq![rename],
    }
}

/// The operations of the actions, in order.
pub open spec fn move_operations(entries: Seq<FileInfoView>, actions: Seq<ActionView>) -> Seq<
    FsOperationView,
>
    decreases actions.len(),
{
    if actions.len() == 0 {
        Seq::<FsOperationView>::empty()
    } else {
        move_operations(entries, actions.drop_last()) + action_operations(
            entries,
            actions.last(),
        )
    }
}

/// The operations that carry a plan out: the required folders first, then
/// the actions.
pub open spec fn apply_operations(plan: PlanView, entries: Seq<FileInfoView>) -> Seq<
    FsOperationView,
> {
    folder_operations(plan.required_folders) + move_operations(entries, plan.actions)
}

/// The scan lists no file below `dir`.
pub open spec fn is_empty_tree(entries: Seq<FileInfoView>, dir: Seq<char>) -> bool {
    forall|i: int|
        0 <= i < entries.len() ==> !(!(#[trigger] entries[i]).is_dir && under(entries[i].path, dir))
}

/// The removal of each directory among `candidates` below which the scan
/// lists no file; a directory that comes later in `candidates` is removed
/// earlier.
pub open spec fn removals(entries: Seq<FileInfoView>, candidates: Seq<FileInfoView>) -> Seq<
    FsOperationView,
>
    decreases candidates.len(),
{
    if candidates.len() == 0 {
        Seq::<FsOperationView>::empty()
    } else {
        let rest = removals(entries, candidates.skip(1));
        if candidates[0].is_dir && is_empty_tree(entries, candidates[0].path) {
            rest.push(FsOperationView::RemoveDir { path: candidates[0].path })
        } else {
            rest
        }
    }
}

/// The removals for the stray folders among the first `count` entries, and
/// for the directories below them.
pub open spec fn cleanup_operations(root: Seq<char>, entries: Seq<FileInfoView>, count: nat) -> Seq<
    FsOperationView,
>
    decreases count,
{
    if count == 0 {
        Seq::<FsOperationView>::empty()
    } else {
        let before = cleanup_operations(root, entries, (count - 1) as nat);
        let entry = entries[count - 1];
        if is_stray_folder(root, entry) {
            before + removals(entries, entries_at_or_under(entries, entry.path))
        } else {
            before
        }
    }
}

/// A conflict among the first actions is the conflict of all of them.
pub proof fn lemma_first_conflict_stays(
    actions: Seq<ActionView>,
    entries: Seq<FileInfoView>,
    count: nat,
    total: nat,
)
    requires
        count <= total,
        first_conflict(actions, entries, count) is Some,
    ensures
        first_conflict(actions, entries, total) == first_conflict(actions, entries, count),
    decreases total - count,
{
    if count < total {
        lemma_first_conflict_stays(actions, entries, count + 1, total);
    }
}

impl RecordManager {
    /// Whether the scan lists no file below `dir`.
    pub fn has_no_files(dir: &str, entries: &Vec<FileInfo>) -> (b: bool)
        ensures
            b == is_empty_tree(views(entries@), dir@),
    {
        let mut i: usize = 0;
        while i < entries.len()
            invariant
                i <= entries.len(),
                forall|j: int|
                    0 <= j < i ==> !(!(#[trigger] views(entries@)[j]).is_dir && under(
                        views(entries@)[j].path,
                        dir@,
                    )),
            decreases entries.len() - i,
        {
            if !entries[i].is_dir && is_under(entries[i].path.as_str(), dir) {
                assert(!views(entries@)[i as int].is_dir && under(
                    views(entries@)[i as int].path,
                    dir@,
                ));
                return false;
            }
            i += 1;
        }
        true
    }

    /// Checks that applying `plan` overwrites nothing: that no two of its
    /// actions have one target and that the scan lists no target. What is
    /// wrong with the first action with which something is wrong is the
    /// error.
    pub fn check_conflicts(plan: &RecordOrganizationPlan, entries: &Vec<FileInfo>) -> (r: Result<
        (),
        ApplyError,
    >)
        ensures
            match r {
                Ok(_) => first_conflict(plan@.actions, views(entries@), plan@.actions.len()) is None,
                Err(e) => first_conflict(plan@.actions, views(entries@), plan@.actions.len())
                    == Some(e@),
            },
    {
        let ghost actions = plan@.actions;
        let ghost all = views(entries@);
        let mut i: usize = 0;
        while i < plan.actions.len()
            invariant
                i <= plan.actions.len(),
                actions == plan@.actions,
                all == views(entries@),
                first_conflict(actions, all, i as nat) is None,
            decreases plan.actions.len() - i,
        {
            let mut j: usize = 0;
            while j < i
                invariant
                    j <= i < plan.actions.len(),
                    actions == plan@.actions,
                    all == views(entries@),
                    first_conflict(actions, all, i as nat) is None,
                    forall|k: int| 0 <= k < j ==> (#[trigger] actions[k]).target != actions[i as int].target,
                decreases i - j,
            {
                assert(actions[j as int] == plan.actions@[j as int]@);
                assert(actions[i as int] == plan.actions@[i as int]@);
                if plan.actions[j].target == plan.actions[i].target {
                    proof {
                        assert(repeats_target(actions, i as int));
                        lemma_first_conflict_stays(actions, all, (i + 1) as nat, actions.len());
                    }
                    return Err(
                        ApplyError::DuplicateTarget { target: plan.actions[i].target.clone() },
                    );
                }
                j += 1;
            }
            assert(actions[i as int] == plan.actions@[i as int]@);
            if DriveScanner::has_path(entries, plan.actions[i].target.as_str()) {
                proof {
                    lemma_first_conflict_stays(actions, all, (i + 1) as nat, actions.len());
                }
                return Err(
                    ApplyError::TargetExists {
                        source: plan.actions[i].source.clone(),
                        target: plan.actions[i].target.clone(),
                    },
                );
            }
            i += 1;
        }
        Ok(())
    }

    /// Checks that applying `plan` overwrites nothing, and says how to
    /// apply it: which folders to create and which files to move, in
    /// order. The plan is refused as a whole where two of its actions have
    /// one target or where the scan lists a target.
    pub fn apply(plan: &RecordOrganizationPlan, entries: &Vec<FileInfo>) -> (r: Result<
        Vec<FsOperation>,
        ApplyError,
    >)
        ensures
            match r {
                Ok(operations) => {
                    &&& first_conflict(
                        plan@.actions,
                        views(entries@),
                        plan@.actions.len(),
                    ) is None
                    &&& operation_views(operations@) == apply_operations(plan@, views(entries@))
                },
                Err(e) => first_conflict(plan@.actions, views(entries@), plan@.actions.len())
                    == Some(e@),
            },
    {
        let ghost actions = plan@.actions;
        let ghost all = views(entries@);
        match Self::check_conflicts(plan, entries) {
            Ok(_) => {},
            Err(e) => {
                return Err(e);
            },
        }
        let mut operations: Vec<FsOperation> = Vec::new();
        let ghost folders = plan@.required_folders;
        let mut f: usize = 0;
        while f < plan.required_folders.len()
            invariant
                f <= plan.required_folders.len(),
                folders == plan@.required_folders,
                operation_views(operations@) == folder_operations(folders.take(f as int)),
            decreases plan.required_folders.len() - f,
        {
            let ghost before = operation_views(operations@);
            operations.push(FsOperation::CreateDirAll { path: plan.required_folders[f].clone() });
            proof {
                assert(folders[f as int] == plan.required_folders@[f as int]@);
                assert(operation_views(operations@) =~= before.push(
                    FsOperationView::CreateDirAll { path: folders[f as int] },
                ));
                assert(operation_views(operations@) =~= folder_operations(folders.take(f + 1)));
            }
            f += 1;
        }
        proof {
            assert(folders.take(plan.required_folders.len() as int) =~= folders);
            assert(actions.take(0) =~= Seq::<ActionView>::empty());
            assert(operation_views(operations@) =~= folder_operations(folders) + move_operations(
                all,
                actions.take(0),
            ));
        }
        let mut a: usize = 0;
        while a < plan.actions.len()
            invariant
                a <= plan.actions.len(),
                actions == plan@.actions,
                folders == plan@.required_folders,
                all == views(entries@),
                operation_views(operations@) == folder_operations(folders) + move_operations(
                    all,
                    actions.take(a as int),
                ),
            decreases plan.actions.len() - a,
        {
            let ghost before = operation_views(operations@);
            let ghost action = actions[a as int];
            proof {
                assert(action == plan.actions@[a as int]@);
                assert(actions.take(a + 1).drop_last() =~= actions.take(a as int));
                assert(actions.take(a + 1).last() == action);
            }
            let ghost rename = FsOperationView::Rename {
                source: action.source,
                target: action.target,
            };
            match parent(plan.actions[a].target.as_str()) {
                Some(folder) => {
                    if !DriveScanner::has_path(entries, folder.as_str()) {
                        operations.push(FsOperation::CreateDirAll { path: folder });
                        operations.push(
                            FsOperation::Rename {
                                source: plan.actions[a].source.clone(),
                                target: plan.actions[a].target.clone(),
                            },
                        );
                        proof {
                            assert(operation_views(operations@) =~= before + seq![
                                FsOperationView::CreateDirAll { path: folder@ },
                                rename,
                            ]);
                        }
                    } else {
                        operations.push(
                            FsOperation::Rename {
                                source: plan.actions[a].source.clone(),
                                target: plan.actions[a].target.clone(),
                            },
                        );
                        proof {
                            assert(operation_views(operations@) =~= before + seq![rename]);
                        }
                    }
                },
                None => {
                    operations.push(
                        FsOperation::Rename {
                            source: plan.actions[a].source.clone(),
                            target: plan.actions[a].target.clone(),
                        },
                    );
                    proof {
                        assert(operation_views(operations@) =~= before + seq![rename]);
                    }
                },
            }
            proof {
                assert(operation_views(operations@) =~= folder_operations(folders)
                    + move_operations(all, actions.take(a + 1)));
            }
            a += 1;
        }
        proof {
            assert(actions.take(plan.actions.len() as int) =~= actions);
        }
        Ok(operations)
    }

    /// Adds to `operations` the removal of `path` and of each directory
    /// below it below which the scan lists no file, deepest first where the
    /// scan lists a directory before what is in it. Says whether `path`
    /// itself is removed.
    pub fn remove_empty_dirs_recursive(
        path: &str,
        entries: &Vec<FileInfo>,
        operations: &mut Vec<FsOperation>,
    ) -> (removed: bool)
        ensures
            operation_views(final(operations)@) == operation_views(old(operations)@) + removals(
                views(entries@),
                entries_at_or_under(views(entries@), path@),
            ),
            removed == (is_empty_tree(views(entries@), path@) && lists_directory(
                views(entries@),
                path@,
            )),
    {
        let candidates = DriveScanner::scan(path, entries);
        let ghost all = views(entries@);
        let ghost found = views(candidates@);
        let ghost start = operation_views(operations@);
        let mut removed = false;
        let mut i: usize = candidates.len();
        proof {
            assert(found.skip(candidates.len() as int) =~= Seq::<FileInfoView>::empty());
            assert(operation_views(operations@) =~= start + removals(all, found.skip(i as int)));
        }
        while i > 0
            invariant
                i <= candidates.len(),
                all == views(entries@),
                found == views(candidates@),
                found == entries_at_or_under(all, path@),
                operation_views(operations@) == start + removals(all, found.skip(i as int)),
                removed == (is_empty_tree(all, path@) && lists_directory(
                    found.skip(i as int),
                    path@,
                )),
            decreases i,
        {
            i -= 1;
            let ghost before = operation_views(operations@);
            proof {
                assert(found.skip(i as int)[0] == found[i as int]);
                assert(found.skip(i as int).skip(1) =~= found.skip(i + 1));
                assert(found[i as int] == candidates@[i as int]@);
                lemma_lists_directory_skip(found, i as int, path@);
            }
            if candidates[i].is_dir && Self::has_no_files(candidates[i].path.as_str(), entries) {
                let wanted = path.to_owned();
                if candidates[i].path == wanted {
                    removed = true;
                }
                operations.push(FsOperation::RemoveDir { path: candidates[i].path.clone() });
                proof {
                    assert(operation_views(operations@) =~= before.push(
                        FsOperationView::RemoveDir { path: found[i as int].path },
                    ));
                }
            }
            proof {
                assert(operation_views(operations@) =~= start + removals(all, found.skip(i as int)));
            }
        }
        proof {
            assert(found.skip(0) =~= found);
            lemma_about_candidates(all, path@);
        }
        removed
    }

    /// The removals that tidy up after the moves: for each stray folder of
    /// the root, the folder and the directories below it below which the
    /// scan lists no file. The scan is one made after the moves.
    pub fn cleanup_non_standard_empty_dirs(record_root: &str, entries: &Vec<FileInfo>) -> (operations:
        Vec<FsOperation>)
        ensures
            operation_views(operations@) == cleanup_operations(
                record_root@,
                views(entries@),
                entries.len() as nat,
            ),
    {
        let mut operations: Vec<FsOperation> = Vec::new();
        let mut i: usize = 0;
        proof {
            assert(operation_views(operations@) =~= cleanup_operations(
                record_root@,
                views(entries@),
                0,
            ));
        }
        while i < entries.len()
            invariant
                i <= entries.len(),
                operation_views(operations@) == cleanup_operations(
                    record_root@,
                    views(entries@),
                    i as nat,
                ),
            decreases entries.len() - i,
        {
            if Self::is_stray_folder(record_root, &entries[i]) {
                let _ = Self::remove_empty_dirs_recursive(
                    entries[i].path.as_str(),
                    entries,
                    &mut operations,
                );
            }
            i += 1;
        }
        operations
    }
}

/// A directory is listed from position `from` on where it is listed at
/// `from` or after it.
pub proof fn lemma_lists_directory_skip(entries: Seq<FileInfoView>, from: int, dir: Seq<char>)
    requires
        0 <= from < entries.len(),
    ensures
        lists_directory(entries.skip(from), dir) == ((entries[from].path == dir
            && entries[from].is_dir) || lists_directory(entries.skip(from + 1), dir)),
{
    let here = entries.skip(from);
    let after = entries.skip(from + 1);
    if lists_directory(here, dir) {
        let k = choose|k: int| 0 <= k < here.len() && (#[trigger] here[k]).path == dir && here[k].is_dir;
        if k > 0 {
            assert(after[k - 1] == here[k]);
        }
    }
    if lists_directory(after, dir) {
        let k = choose|k: int| 0 <= k < after.len() && (#[trigger] after[k]).path == dir && after[k].is_dir;
        assert(here[k + 1] == after[k]);
    }
    if entries[from].path == dir && entries[from].is_dir {
        assert(here[0] == entries[from]);
    }
}

/// The scan lists `dir` as a directory.
pub open spec fn lists_directory(entries: Seq<FileInfoView>, dir: Seq<char>) -> bool {
    exists|i: int|
        0 <= i < entries.len() && (#[trigger] entries[i]).path == dir && entries[i].is_dir
}

/// A directory is among the entries at or below it exactly where the scan
/// lists it.
pub proof fn lemma_about_candidates(entries: Seq<FileInfoView>, dir: Seq<char>)
    ensures
        lists_directory(entries_at_or_under(entries, dir), dir) == lists_directory(entries, dir),
{
    let keep = |e: FileInfoView| e.path == dir || under(e.path, dir);
    let found = entries.filter(keep);
    if lists_directory(found, dir) {
        let k = choose|k: int| 0 <= k < found.len() && (#[trigger] found[k]).path == dir && found[k].is_dir;
        assert(found.contains(found[k]));
        entries.lemma_filter_contains_rev(keep, found[k]);
        let i = choose|i: int| 0 <= i < entries.len() && entries[i] == found[k];
        assert(entries[i].path == dir && entries[i].is_dir);
    }
    if lists_directory(entries, dir) {
        let i = choose|i: int| 0 <= i < entries.len() && (#[trigger] entries[i]).path == dir && entries[i].is_dir;
        entries.lemma_filter_contains(keep, i);
        let k = choose|k: int| 0 <= k < found.len() && found[k] == entries[i];
        assert(found[k].path == dir && found[k].is_dir);
    }
}

} // verus!
