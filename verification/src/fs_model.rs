//! A model of the folder that the operations act on: the files with what a
//! scan reports of them, and the directories. It says what each operation
//! does and what a scan of the result can list.

use vstd::prelude::*;
use crate::applier::{
    action_operations, apply_operations, cleanup_operations, folder_operations, is_empty_tree,
    lists_directory, move_operations, removals, FsOperationView,
};
use crate::paths::{at_or_under, extension_of, file_name_of, parent_of, under};
use crate::planner::is_stray_folder;
use crate::scanner::entries_at_or_under;
use crate::plan_laws::moves;
use crate::record_manager::{ActionView, PlanView};
use crate::scanner::{listed, FileInfoView};
use crate::text::ascii_lower;

verus! {

/// The files and the directories of a folder.
pub struct FsModel {
    pub files: Seq<FileInfoView>,
    pub dirs: Set<Seq<char>>,
}

/// The folder as a scan reports it.
pub open spec fn model_of(entries: Seq<FileInfoView>) -> FsModel {
    FsModel {
        files: entries.filter(|e: FileInfoView| !e.is_dir),
        dirs: Set::new(|path: Seq<char>| lists_directory(entries, path)),
    }
}

/// What a scan reports of `file` once it has the path `target`: the new
/// path with its name and extension; size and date as before.
pub open spec fn moved_file(file: FileInfoView, target: Seq<char>) -> FileInfoView {
    FileInfoView {
        path: target,
        name: file_name_of(target),
        extension: ascii_lower(extension_of(file_name_of(target))),
        size: file.size,
        modified: file.modified,
        is_dir: false,
    }
}

/// The folder after one operation. Creating a directory creates what is
/// missing above it as well; a move gives the file at the source the target
/// as its path; a removal takes the directory away.
pub open spec fn step(model: FsModel, operation: FsOperationView) -> FsModel {
    match operation {
        FsOperationView::CreateDirAll { path } => FsModel {
            files: model.files,
            dirs: model.dirs.union(Set::new(|p: Seq<char>| p == path || under(path, p))),
        },
        FsOperationView::Rename { source, target } => FsModel {
            files: Seq::new(
                model.files.len(),
                |i: int|
                    if model.files[i].path == source {
                        moved_file(model.files[i], target)
                    } else {
                        model.files[i]
                    },
            ),
            dirs: model.dirs,
        },
        FsOperationView::RemoveDir { path } => FsModel {
            files: model.files,
            dirs: model.dirs.remove(path),
        },
    }
}

/// The folder after the operations, one after the other.
pub open spec fn run(model: FsModel, operations: Seq<FsOperationView>) -> FsModel
    decreases operations.len(),
{
    if operations.len() == 0 {
        model
    } else {
        step(run(model, operations.drop_last()), operations.last())
    }
}

/// Something is at `path`: a file or a directory.
pub open spec fn occupied(model: FsModel, path: Seq<char>) -> bool {
    model.dirs.contains(path) || exists|i: int|
        0 <= i < model.files.len() && (#[trigger] model.files[i]).path == path
}

/// `entries` can be a scan of the folder `model` from `root`: each file
/// that it lists is a file of the folder, each directory that it lists is
/// one of the folder and has the name that its path shows, and the root is
/// listed where it is there.
pub open spec fn scan_of(entries: Seq<FileInfoView>, model: FsModel, root: Seq<char>) -> bool {
    &&& forall|i: int|
        0 <= i < entries.len() && !(#[trigger] entries[i]).is_dir ==> model.files.contains(
            entries[i],
        )
    &&& forall|i: int|
        0 <= i < entries.len() && (#[trigger] entries[i]).is_dir ==> model.dirs.contains(
            entries[i].path,
        ) && entries[i].name == file_name_of(entries[i].path)
    &&& model.dirs.contains(root) ==> lists_directory(entries, root)
}

/// Running two lists of operations one after the other is running them as
/// one list.
pub proof fn lemma_run_concat(model: FsModel, first: Seq<FsOperationView>, second: Seq<FsOperationView>)
    ensures
        run(model, first + second) == run(run(model, first), second),
    decreases second.len(),
{
    if second.len() == 0 {
        assert(first + second =~= first);
    } else {
        lemma_run_concat(model, first, second.drop_last());
        assert((first + second).drop_last() =~= first + second.drop_last());
        assert((first + second).last() == second.last());
    }
}

/// Some operation of the list creates the directory `path`.
pub open spec fn creates(operations: Seq<FsOperationView>, path: Seq<char>) -> bool {
    exists|k: int|
        0 <= k < operations.len() && #[trigger] operations[k] == (FsOperationView::CreateDirAll {
            path,
        })
}

/// Some operation of the list removes the directory `path`.
pub open spec fn removes(operations: Seq<FsOperationView>, path: Seq<char>) -> bool {
    exists|k: int|
        0 <= k < operations.len() && #[trigger] operations[k] == (FsOperationView::RemoveDir {
            path,
        })
}

/// No operation of the list is a move.
pub open spec fn no_moves(operations: Seq<FsOperationView>) -> bool {
    forall|k: int| 0 <= k < operations.len() ==> !((#[trigger] operations[k]) is Rename)
}

/// A directory of the result was there before or was created: it is the
/// path of a creation or lies above it.
pub proof fn lemma_run_dirs_from(model: FsModel, operations: Seq<FsOperationView>, path: Seq<char>)
    requires
        run(model, operations).dirs.contains(path),
    ensures
        model.dirs.contains(path) || exists|created: Seq<char>|
            #[trigger] creates(operations, created) && (path == created || under(created, path)),
    decreases operations.len(),
{
    if operations.len() > 0 {
        let front = operations.drop_last();
        let before = run(model, front);
        if before.dirs.contains(path) {
            lemma_run_dirs_from(model, front, path);
            if !model.dirs.contains(path) {
                let created = choose|created: Seq<char>|
                    #[trigger] creates(front, created) && (path == created || under(created, path));
                let k = choose|k: int|
                    0 <= k < front.len() && #[trigger] front[k] == (FsOperationView::CreateDirAll {
                        path: created,
                    });
                assert(operations[k] == front[k]);
                assert(creates(operations, created));
            }
        } else {
            match operations.last() {
                FsOperationView::CreateDirAll { path: created } => {
                    assert(operations[operations.len() - 1] == operations.last());
                    assert(creates(operations, created));
                },
                _ => {},
            }
        }
    }
}

/// A directory stays where no operation removes it.
pub proof fn lemma_run_dirs_stay(model: FsModel, operations: Seq<FsOperationView>, path: Seq<char>)
    requires
        model.dirs.contains(path),
        !removes(operations, path),
    ensures
        run(model, operations).dirs.contains(path),
    decreases operations.len(),
{
    if operations.len() > 0 {
        let front = operations.drop_last();
        assert(!removes(front, path)) by {
            if removes(front, path) {
                let k = choose|k: int|
                    0 <= k < front.len() && #[trigger] front[k] == (FsOperationView::RemoveDir {
                        path,
                    });
                assert(operations[k] == front[k]);
            }
        }
        lemma_run_dirs_stay(model, front, path);
        assert(operations[operations.len() - 1] == operations.last());
    }
}

/// A directory that an operation creates is there at the end where no
/// operation removes it.
pub proof fn lemma_run_creates(model: FsModel, operations: Seq<FsOperationView>, path: Seq<char>)
    requires
        creates(operations, path),
        !removes(operations, path),
    ensures
        run(model, operations).dirs.contains(path),
    decreases operations.len(),
{
    if operations.len() > 0 {
        let front = operations.drop_last();
        assert(!removes(front, path)) by {
            if removes(front, path) {
                let k = choose|k: int|
                    0 <= k < front.len() && #[trigger] front[k] == (FsOperationView::RemoveDir {
                        path,
                    });
                assert(operations[k] == front[k]);
            }
        }
        assert(operations[operations.len() - 1] == operations.last());
        let k = choose|k: int|
            0 <= k < operations.len() && #[trigger] operations[k] == (
            FsOperationView::CreateDirAll { path });
        if k < front.len() {
            assert(front[k] == operations[k]);
            assert(creates(front, path));
            lemma_run_creates(model, front, path);
        }
    }
}

/// Operations that move nothing leave the files as they are.
pub proof fn lemma_run_keeps_files(model: FsModel, operations: Seq<FsOperationView>)
    requires
        no_moves(operations),
    ensures
        run(model, operations).files == model.files,
    decreases operations.len(),
{
    if operations.len() > 0 {
        let front = operations.drop_last();
        assert forall|k: int| 0 <= k < front.len() implies !((#[trigger] front[k]) is Rename) by {
            assert(front[k] == operations[k]);
        }
        lemma_run_keeps_files(model, front);
        assert(operations[operations.len() - 1] == operations.last());
    }
}

/// A file of the folder after the moves: a file that was there and that no
/// action moves, or a file that was there at the source of an action, with
/// the target of that action as its path.
pub open spec fn placed(files: Seq<FileInfoView>, actions: Seq<ActionView>, file: FileInfoView) -> bool {
    ||| files.contains(file) && !moves(actions, file.path)
    ||| exists|g: int, a: int|
        0 <= g < files.len() && 0 <= a < actions.len() && (#[trigger] actions[a]).source == (
        #[trigger] files[g]).path && file == moved_file(files[g], actions[a].target)
}

/// No source of an action is the target of an action.
pub open spec fn sources_apart(actions: Seq<ActionView>) -> bool {
    forall|a: int, b: int|
        0 <= a < actions.len() && 0 <= b < actions.len() ==> (#[trigger] actions[a]).source != (
        #[trigger] actions[b]).target
}

/// After the moves of the actions every file is placed, and the files are
/// as many as before.
pub proof fn lemma_moves_place_files(
    model: FsModel,
    entries: Seq<FileInfoView>,
    actions: Seq<ActionView>,
)
    requires
        sources_apart(actions),
    ensures
        run(model, move_operations(entries, actions)).files.len() == model.files.len(),
        forall|i: int|
            0 <= i < model.files.len() ==> placed(
                model.files,
                actions,
                #[trigger] run(model, move_operations(entries, actions)).files[i],
            ),
    decreases actions.len(),
{
    if actions.len() == 0 {
        assert forall|i: int| 0 <= i < model.files.len() implies placed(
            model.files,
            actions,
            #[trigger] model.files[i],
        ) by {
            assert(model.files.contains(model.files[i]));
        }
    } else {
        let front = actions.drop_last();
        let last = actions.last();
        assert(last == actions[actions.len() - 1]);
        assert(sources_apart(front)) by {
            assert forall|a: int, b: int|
                0 <= a < front.len() && 0 <= b < front.len() implies (#[trigger] front[a]).source
                != (#[trigger] front[b]).target by {
                assert(front[a] == actions[a]);
                assert(front[b] == actions[b]);
            }
        }
        lemma_moves_place_files(model, entries, front);
        let before = run(model, move_operations(entries, front));
        let ops = action_operations(entries, last);
        lemma_run_concat(model, move_operations(entries, front), ops);
        let after = run(before, ops);
        let rename = FsOperationView::Rename { source: last.source, target: last.target };
        let middle = run(before, ops.drop_last());
        assert(ops.last() == rename);
        assert(middle.files == before.files) by {
            let creations = ops.drop_last();
            assert forall|k: int| 0 <= k < creations.len() implies !((
            #[trigger] creations[k]) is Rename) by {
                assert(creations[k] == ops[k]);
            }
            lemma_run_keeps_files(before, creations);
        }
        assert(after == step(middle, rename));
        assert forall|i: int| 0 <= i < model.files.len() implies placed(
            model.files,
            actions,
            #[trigger] after.files[i],
        ) by {
            let old_file = before.files[i];
            assert(placed(model.files, front, old_file));
            if old_file.path == last.source {
                if model.files.contains(old_file) && !moves(front, old_file.path) {
                    let g = choose|g: int| 0 <= g < model.files.len() && model.files[g] == old_file;
                    assert(actions[actions.len() - 1].source == model.files[g].path);
                } else {
                    let (g, a) = choose|g: int, a: int|
                        0 <= g < model.files.len() && 0 <= a < front.len() && (
                        #[trigger] front[a]).source == (#[trigger] model.files[g]).path && old_file
                            == moved_file(model.files[g], front[a].target);
                    assert(front[a] == actions[a]);
                    assert(actions[actions.len() - 1].source != actions[a].target);
                }
            } else {
                if model.files.contains(old_file) && !moves(front, old_file.path) {
                    assert(!moves(actions, old_file.path)) by {
                        if moves(actions, old_file.path) {
                            let k = choose|k: int|
                                0 <= k < actions.len() && (#[trigger] actions[k]).source
                                    == old_file.path;
                            if k < front.len() {
                                assert(front[k] == actions[k]);
                            }
                        }
                    }
                } else {
                    let (g, a) = choose|g: int, a: int|
                        0 <= g < model.files.len() && 0 <= a < front.len() && (
                        #[trigger] front[a]).source == (#[trigger] model.files[g]).path && old_file
                            == moved_file(model.files[g], front[a].target);
                    assert(front[a] == actions[a]);
                }
            }
        }
    }
}

/// Each operation that moves the actions is the move of an action or the
/// creation of the folder of an action's target.
pub proof fn lemma_move_operations_shape(
    entries: Seq<FileInfoView>,
    actions: Seq<ActionView>,
    k: int,
)
    requires
        0 <= k < move_operations(entries, actions).len(),
    ensures
        match move_operations(entries, actions)[k] {
            FsOperationView::CreateDirAll { path } => exists|a: int|
                0 <= a < actions.len() && parent_of((#[trigger] actions[a]).target) == Some(path),
            FsOperationView::Rename { source, target } => exists|a: int|
                0 <= a < actions.len() && #[trigger] actions[a].source == source
                    && actions[a].target == target,
            FsOperationView::RemoveDir { path } => false,
        },
    decreases actions.len(),
{
    if actions.len() > 0 {
        let front = actions.drop_last();
        let before = move_operations(entries, front);
        let last = actions.last();
        assert(last == actions[actions.len() - 1]);
        if k < before.len() {
            lemma_move_operations_shape(entries, front, k);
            assert(move_operations(entries, actions)[k] == before[k]);
            match before[k] {
                FsOperationView::CreateDirAll { path } => {
                    let a = choose|a: int|
                        0 <= a < front.len() && parent_of((#[trigger] front[a]).target) == Some(
                            path,
                        );
                    assert(front[a] == actions[a]);
                },
                FsOperationView::Rename { source, target } => {
                    let a = choose|a: int|
                        0 <= a < front.len() && #[trigger] front[a].source == source
                            && front[a].target == target;
                    assert(front[a] == actions[a]);
                },
                FsOperationView::RemoveDir { path } => {},
            }
        } else {
            assert(move_operations(entries, actions)[k] == action_operations(entries, last)[k
                - before.len()]);
        }
    }
}

/// Each operation that applies a plan is the creation of a required
/// folder, the creation of the folder of an action's target, or the move of
/// an action.
pub proof fn lemma_apply_operations_shape(plan: PlanView, entries: Seq<FileInfoView>, k: int)
    requires
        0 <= k < apply_operations(plan, entries).len(),
    ensures
        match apply_operations(plan, entries)[k] {
            FsOperationView::CreateDirAll { path } => plan.required_folders.contains(path)
                || exists|a: int|
                0 <= a < plan.actions.len() && parent_of((#[trigger] plan.actions[a]).target)
                    == Some(path),
            FsOperationView::Rename { source, target } => exists|a: int|
                0 <= a < plan.actions.len() && #[trigger] plan.actions[a].source == source
                    && plan.actions[a].target == target,
            FsOperationView::RemoveDir { path } => false,
        },
{
    let folders = folder_operations(plan.required_folders);
    if k < folders.len() {
        assert(apply_operations(plan, entries)[k] == folders[k]);
        assert(plan.required_folders[k] == plan.required_folders[k]);
    } else {
        lemma_move_operations_shape(entries, plan.actions, k - folders.len());
        assert(apply_operations(plan, entries)[k] == move_operations(entries, plan.actions)[k
            - folders.len()]);
    }
}

/// Each removal among candidates removes a candidate that is a directory
/// below which the scan lists no file.
pub proof fn lemma_removals_shape(
    entries: Seq<FileInfoView>,
    candidates: Seq<FileInfoView>,
    k: int,
)
    requires
        0 <= k < removals(entries, candidates).len(),
    ensures
        exists|c: int|
            0 <= c < candidates.len() && removals(entries, candidates)[k] == (
            FsOperationView::RemoveDir { path: (#[trigger] candidates[c]).path })
                && candidates[c].is_dir && is_empty_tree(entries, candidates[c].path),
    decreases candidates.len(),
{
    let rest = removals(entries, candidates.skip(1));
    if k < rest.len() {
        lemma_removals_shape(entries, candidates.skip(1), k);
        let c = choose|c: int|
            0 <= c < candidates.skip(1).len() && rest[k] == (FsOperationView::RemoveDir {
                path: (#[trigger] candidates.skip(1)[c]).path,
            }) && candidates.skip(1)[c].is_dir && is_empty_tree(
                entries,
                candidates.skip(1)[c].path,
            );
        assert(candidates[c + 1] == candidates.skip(1)[c]);
    } else {
        assert(removals(entries, candidates)[k] == (FsOperationView::RemoveDir {
            path: candidates[0].path,
        }));
    }
}

/// Tidying up removes nothing but directories without files: each of its
/// operations removes a directory that is a stray folder of the root or
/// lies below one, and below which the scan lists no file.
pub proof fn lemma_cleanup_shape(root: Seq<char>, entries: Seq<FileInfoView>, count: nat, k: int)
    requires
        count <= entries.len(),
        0 <= k < cleanup_operations(root, entries, count).len(),
    ensures
        cleanup_operations(root, entries, count)[k] is RemoveDir,
        is_empty_tree(entries, cleanup_operations(root, entries, count)[k]->RemoveDir_path),
        exists|j: int|
            0 <= j < entries.len() && is_stray_folder(root, #[trigger] entries[j]) && at_or_under(
                cleanup_operations(root, entries, count)[k]->RemoveDir_path,
                entries[j].path,
            ),
    decreases count,
{
    let before = cleanup_operations(root, entries, (count - 1) as nat);
    if k < before.len() {
        lemma_cleanup_shape(root, entries, (count - 1) as nat, k);
        let j = choose|j: int|
            0 <= j < entries.len() && is_stray_folder(root, #[trigger] entries[j]) && at_or_under(
                before[k]->RemoveDir_path,
                entries[j].path,
            );
        assert(cleanup_operations(root, entries, count)[k] == before[k]);
    } else {
        let entry = entries[count - 1];
        let candidates = entries_at_or_under(entries, entry.path);
        lemma_removals_shape(entries, candidates, k - before.len());
        let c = choose|c: int|
            0 <= c < candidates.len() && removals(entries, candidates)[k - before.len()] == (
            FsOperationView::RemoveDir { path: (#[trigger] candidates[c]).path })
                && candidates[c].is_dir && is_empty_tree(entries, candidates[c].path);
        let keep = |e: FileInfoView| e.path == entry.path || under(e.path, entry.path);
        entries.lemma_filter_pred(keep, c);
        assert(cleanup_operations(root, entries, count)[k] == removals(entries, candidates)[k
            - before.len()]);
        assert(at_or_under(candidates[c].path, entries[count - 1].path));
    }
}

/// A file that no action moves is after the moves what it was before.
pub proof fn lemma_moves_keep_unmoved(
    model: FsModel,
    entries: Seq<FileInfoView>,
    actions: Seq<ActionView>,
    i: int,
)
    requires
        0 <= i < model.files.len(),
        !moves(actions, model.files[i].path),
    ensures
        run(model, move_operations(entries, actions)).files.len() == model.files.len(),
        run(model, move_operations(entries, actions)).files[i] == model.files[i],
    decreases actions.len(),
{
    if actions.len() > 0 {
        let front = actions.drop_last();
        let last = actions.last();
        assert(last == actions[actions.len() - 1]);
        assert(!moves(front, model.files[i].path)) by {
            if moves(front, model.files[i].path) {
                let k = choose|k: int|
                    0 <= k < front.len() && (#[trigger] front[k]).source == model.files[i].path;
                assert(front[k] == actions[k]);
            }
        }
        lemma_moves_keep_unmoved(model, entries, front, i);
        let before = run(model, move_operations(entries, front));
        let ops = action_operations(entries, last);
        lemma_run_concat(model, move_operations(entries, front), ops);
        let creations = ops.drop_last();
        assert forall|k: int| 0 <= k < creations.len() implies !((#[trigger] creations[k]) is Rename) by {
            assert(creations[k] == ops[k]);
        }
        lemma_run_keeps_files(before, creations);
        assert(ops.last() == (FsOperationView::Rename { source: last.source, target: last.target }));
    }
}

} // verus!
