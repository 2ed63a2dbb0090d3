//! No file is moved twice: the sweeps of a plan come by different files,
//! or leave alone what an earlier sweep has come by.

use vstd::prelude::*;
use crate::idempotence::lemma_category_root;
use crate::paths::{child_of, dir_prefix, lemma_same_top_folder, under};
use crate::plan_laws::{lemma_files_in_listed, lemma_files_under_listed, moves};
use crate::planner::{
    category_root, direct_sweeps, is_stray_folder, misplaced, plan_of, planned, stays,
    sweep_category_folders, sweep_category_trees, sweep_files, sweep_stray_folders, PlanContext,
    Sweep, SweepState,
};
use crate::record_manager::{lemma_folder_facts, record_types, ActionView, RecordType};
use crate::scanner::{files_in, files_under, FileInfoView};

verus! {

/// No two actions move one file.
pub open spec fn distinct_sources(actions: Seq<ActionView>) -> bool {
    forall|i: int, j: int|
        0 <= i < j < actions.len() ==> (#[trigger] actions[i]).source != (
        #[trigger] actions[j]).source
}

/// No path is listed twice.
pub open spec fn distinct_paths(files: Seq<FileInfoView>) -> bool {
    forall|i: int, j: int|
        0 <= i < j < files.len() ==> (#[trigger] files[i]).path != (#[trigger] files[j]).path
}

/// No path is listed twice, and every directory has the name that its path
/// shows.
pub open spec fn listed_once(entries: Seq<FileInfoView>) -> bool {
    &&& distinct_paths(entries)
    &&& forall|i: int|
        0 <= i < entries.len() && (#[trigger] entries[i]).is_dir ==> entries[i].name
            == crate::paths::file_name_of(entries[i].path)
}

/// The path lies directly in the root or directly in the folder of one of
/// the first `count` categories.
pub open spec fn lies_directly(root: Seq<char>, count: nat, path: Seq<char>) -> bool {
    child_of(path, root) || exists|k: int|
        0 <= k < count && child_of(path, #[trigger] category_root(root, record_types()[k]))
}

/// The path lies below the folder of one of the first `count` categories,
/// not directly in it.
pub open spec fn lies_deep(root: Seq<char>, count: nat, path: Seq<char>) -> bool {
    exists|k: int|
        0 <= k < count && under(path, #[trigger] category_root(root, record_types()[k]))
            && !child_of(path, category_root(root, record_types()[k]))
}

/// The path lies below one of the stray folders among the first `count`
/// entries.
pub open spec fn lies_astray(ctx: PlanContext, count: nat, path: Seq<char>) -> bool {
    exists|j: int|
        0 <= j < count && j < ctx.entries.len() && is_stray_folder(
            ctx.root,
            #[trigger] ctx.entries[j],
        ) && under(path, ctx.entries[j].path)
}

/// The selected entries of a list without a path twice have no path twice.
pub proof fn lemma_filter_distinct(entries: Seq<FileInfoView>, keep: spec_fn(FileInfoView) -> bool)
    requires
        distinct_paths(entries),
    ensures
        distinct_paths(entries.filter(keep)),
    decreases entries.len(),
{
    reveal(Seq::filter);
    if entries.len() > 0 {
        let front = entries.drop_last();
        assert(distinct_paths(front)) by {
            assert forall|i: int, j: int| 0 <= i < j < front.len() implies (#[trigger] front[i]).path
                != (#[trigger] front[j]).path by {
                assert(front[i] == entries[i]);
                assert(front[j] == entries[j]);
            }
        }
        lemma_filter_distinct(front, keep);
        let found = front.filter(keep);
        if keep(entries.last()) {
            let all = entries.filter(keep);
            assert(all == found.push(entries.last()));
            assert forall|i: int, j: int| 0 <= i < j < all.len() implies (#[trigger] all[i]).path
                != (#[trigger] all[j]).path by {
                if j == found.len() {
                    assert(found.contains(found[i]));
                    front.lemma_filter_contains_rev(keep, found[i]);
                    let k = choose|k: int| 0 <= k < front.len() && front[k] == found[i];
                    assert(entries[k] == front[k]);
                    assert(entries[k].path != entries[entries.len() - 1].path);
                } else {
                    assert(all[i] == found[i]);
                    assert(all[j] == found[j]);
                }
            }
        }
    }
}

/// A sweep over files without a path twice, none of which has been moved
/// unless it stays, moves no file twice; and what it moves are files of its
/// list that do not stay.
pub proof fn lemma_sweep_sources(
    ctx: PlanContext,
    sweep: Sweep,
    state: SweepState,
    files: Seq<FileInfoView>,
)
    requires
        distinct_sources(state.actions),
        distinct_paths(files),
        forall|k: int|
            0 <= k < files.len() && !stays(ctx, sweep, #[trigger] files[k]) ==> !moves(
                state.actions,
                files[k].path,
            ),
        sweep_files(ctx, sweep, state, files) is Some,
    ensures
        distinct_sources(sweep_files(ctx, sweep, state, files)->0.actions),
        state.actions.len() <= sweep_files(ctx, sweep, state, files)->0.actions.len(),
        forall|i: int|
            0 <= i < sweep_files(ctx, sweep, state, files)->0.actions.len() ==> (i
                < state.actions.len() && (#[trigger] sweep_files(
                ctx,
                sweep,
                state,
                files,
            )->0.actions[i]) == state.actions[i]) || (i >= state.actions.len() && exists|k: int|
                0 <= k < files.len() && (#[trigger] files[k]).path == sweep_files(
                    ctx,
                    sweep,
                    state,
                    files,
                )->0.actions[i].source && !stays(ctx, sweep, files[k])),
    decreases files.len(),
{
    if files.len() > 0 {
        let front = files.drop_last();
        let last = files.last();
        assert(last == files[files.len() - 1]);
        assert(distinct_paths(front)) by {
            assert forall|i: int, j: int| 0 <= i < j < front.len() implies (#[trigger] front[i]).path
                != (#[trigger] front[j]).path by {
                assert(front[i] == files[i]);
                assert(front[j] == files[j]);
            }
        }
        assert forall|k: int|
            0 <= k < front.len() && !stays(ctx, sweep, #[trigger] front[k]) implies !moves(
            state.actions,
            front[k].path,
        ) by {
            assert(front[k] == files[k]);
        }
        lemma_sweep_sources(ctx, sweep, state, front);
        let before = sweep_files(ctx, sweep, state, front)->0;
        let after = sweep_files(ctx, sweep, state, files)->0;
        if stays(ctx, sweep, last) {
            assert(after == before);
            assert forall|i: int| 0 <= i < after.actions.len() implies (i < state.actions.len() && (
            #[trigger] after.actions[i]) == state.actions[i]) || (i >= state.actions.len()
                && exists|k: int|
                0 <= k < files.len() && (#[trigger] files[k]).path == after.actions[i].source
                    && !stays(ctx, sweep, files[k])) by {
                if i >= state.actions.len() {
                    let k = choose|k: int|
                        0 <= k < front.len() && (#[trigger] front[k]).path
                            == before.actions[i].source && !stays(ctx, sweep, front[k]);
                    assert(files[k] == front[k]);
                }
            }
        } else {
            let n = before.actions.len() as int;
            assert(after.actions.len() == n + 1);
            assert(after.actions[n].source == last.path);
            assert forall|i: int| 0 <= i < n implies (#[trigger] after.actions[i]).source
                != last.path by {
                assert(after.actions[i] == before.actions[i]);
                if i < state.actions.len() {
                    assert(before.actions[i] == state.actions[i]);
                    assert(moves(state.actions, state.actions[i].source));
                } else {
                    let k = choose|k: int|
                        0 <= k < front.len() && (#[trigger] front[k]).path
                            == before.actions[i].source && !stays(ctx, sweep, front[k]);
                    assert(files[k] == front[k]);
                    assert(files[k].path != files[files.len() - 1].path);
                }
            }
            assert forall|i: int, j: int| 0 <= i < j < after.actions.len() implies (
            #[trigger] after.actions[i]).source != (#[trigger] after.actions[j]).source by {
                if j < n {
                    assert(after.actions[i] == before.actions[i]);
                    assert(after.actions[j] == before.actions[j]);
                }
            }
            assert forall|i: int| 0 <= i < after.actions.len() implies (i < state.actions.len() && (
            #[trigger] after.actions[i]) == state.actions[i]) || (i >= state.actions.len()
                && exists|k: int|
                0 <= k < files.len() && (#[trigger] files[k]).path == after.actions[i].source
                    && !stays(ctx, sweep, files[k])) by {
                if i < n {
                    assert(after.actions[i] == before.actions[i]);
                    if i >= state.actions.len() {
                        let k = choose|k: int|
                            0 <= k < front.len() && (#[trigger] front[k]).path
                                == before.actions[i].source && !stays(ctx, sweep, front[k]);
                        assert(files[k] == front[k]);
                    }
                } else {
                    assert(files[files.len() - 1].path == after.actions[i].source);
                }
            }
        }
    }
}

/// What lies directly in a folder does not lie below a folder in it.
pub proof fn lemma_child_not_deeper(root: Seq<char>, folder: Seq<char>, path: Seq<char>)
    requires
        child_of(path, root),
        child_of(folder, root),
    ensures
        !under(path, folder),
{
    if under(path, folder) {
        let r = dir_prefix(root).len() as int;
        assert(folder.skip(r)[folder.len() - 1 - r] == folder.last());
        assert(dir_prefix(folder) == folder.push('/'));
        let at = folder.len() as int;
        assert(path[0 + at] == dir_prefix(folder)[at]);
        assert(path.skip(r)[at - r] == path[at]);
    }
}

/// The folders of different categories are different folders.
pub proof fn lemma_category_roots_differ(root: Seq<char>, one: RecordType, other: RecordType)
    requires
        one != other,
    ensures
        category_root(root, one) != category_root(root, other),
{
    lemma_folder_facts(one);
    lemma_folder_facts(other);
    reveal_strlit("screen record");
    reveal_strlit("voice record");
    if category_root(root, one) == category_root(root, other) {
        let r = dir_prefix(root).len() as int;
        assert(category_root(root, one).len() == category_root(root, other).len());
        assert(category_root(root, one)[r + 0] == one.folder()[0]);
        assert(category_root(root, other)[r + 0] == other.folder()[0]);
    }
}

/// What lies below the folder of a category does not lie in or below the
/// folder of another, nor below a stray folder, nor directly in the root.
pub proof fn lemma_zones_apart(ctx: PlanContext, category: RecordType, path: Seq<char>)
    requires
        listed_once(ctx.entries),
        under(path, category_root(ctx.root, category)),
    ensures
        !child_of(path, ctx.root),
        forall|other: RecordType|
            other != category ==> !under(path, #[trigger] category_root(ctx.root, other)),
        forall|j: int|
            0 <= j < ctx.entries.len() && is_stray_folder(ctx.root, #[trigger] ctx.entries[j])
                ==> !under(path, ctx.entries[j].path),
{
    let here = category_root(ctx.root, category);
    lemma_category_root(ctx.root, category);
    if child_of(path, ctx.root) {
        lemma_child_not_deeper(ctx.root, here, path);
    }
    assert forall|other: RecordType| other != category implies !under(
        path,
        #[trigger] category_root(ctx.root, other),
    ) by {
        if under(path, category_root(ctx.root, other)) {
            lemma_category_root(ctx.root, other);
            lemma_same_top_folder(ctx.root, here, category_root(ctx.root, other), path);
            lemma_category_roots_differ(ctx.root, category, other);
        }
    }
    assert forall|j: int|
        0 <= j < ctx.entries.len() && is_stray_folder(
            ctx.root,
            #[trigger] ctx.entries[j],
        ) implies !under(path, ctx.entries[j].path) by {
        if under(path, ctx.entries[j].path) {
            lemma_same_top_folder(ctx.root, here, ctx.entries[j].path, path);
        }
    }
}

/// What lies below a stray folder does not lie below another, nor directly
/// in the root.
pub proof fn lemma_strays_apart(ctx: PlanContext, j: int, path: Seq<char>)
    requires
        listed_once(ctx.entries),
        0 <= j < ctx.entries.len(),
        is_stray_folder(ctx.root, ctx.entries[j]),
        under(path, ctx.entries[j].path),
    ensures
        !child_of(path, ctx.root),
        forall|k: int|
            0 <= k < ctx.entries.len() && k != j && is_stray_folder(
                ctx.root,
                #[trigger] ctx.entries[k],
            ) ==> !under(path, ctx.entries[k].path),
{
    if child_of(path, ctx.root) {
        lemma_child_not_deeper(ctx.root, ctx.entries[j].path, path);
    }
    assert forall|k: int|
        0 <= k < ctx.entries.len() && k != j && is_stray_folder(
            ctx.root,
            #[trigger] ctx.entries[k],
        ) implies !under(path, ctx.entries[k].path) by {
        if under(path, ctx.entries[k].path) {
            lemma_same_top_folder(ctx.root, ctx.entries[j].path, ctx.entries[k].path, path);
            if k < j {
                assert(ctx.entries[k].path != ctx.entries[j].path);
            } else {
                assert(ctx.entries[j].path != ctx.entries[k].path);
            }
        }
    }
}

/// After the sweeps of the root and of the folders of the first `count`
/// categories no file is moved twice, and every moved file lay directly in
/// the root or in one of these folders.
#[verifier::rlimit(40)]
pub proof fn lemma_direct_sources(ctx: PlanContext, count: nat)
    requires
        listed_once(ctx.entries),
        count <= 3,
        sweep_files(
            ctx,
            Sweep::Direct,
            SweepState {
                folders: Seq::<Seq<char>>::empty(),
                actions: Seq::<ActionView>::empty(),
                planned: Seq::<Seq<char>>::empty(),
            },
            files_in(ctx.entries, ctx.root),
        ) is Some,
        sweep_category_folders(
            ctx,
            sweep_files(
                ctx,
                Sweep::Direct,
                SweepState {
                    folders: Seq::<Seq<char>>::empty(),
                    actions: Seq::<ActionView>::empty(),
                    planned: Seq::<Seq<char>>::empty(),
                },
                files_in(ctx.entries, ctx.root),
            )->0,
            count,
        ) is Some,
    ensures
        ({
            let start = SweepState {
                folders: Seq::<Seq<char>>::empty(),
                actions: Seq::<ActionView>::empty(),
                planned: Seq::<Seq<char>>::empty(),
            };
            let after_root = sweep_files(
                ctx,
                Sweep::Direct,
                start,
                files_in(ctx.entries, ctx.root),
            )->0;
            let reached = sweep_category_folders(ctx, after_root, count)->0;
            &&& distinct_sources(reached.actions)
            &&& forall|i: int|
                0 <= i < reached.actions.len() ==> lies_directly(
                    ctx.root,
                    count,
                    (#[trigger] reached.actions[i]).source,
                )
        }),
    decreases count,
{
    let start = SweepState {
        folders: Seq::<Seq<char>>::empty(),
        actions: Seq::<ActionView>::empty(),
        planned: Seq::<Seq<char>>::empty(),
    };
    let root_files = files_in(ctx.entries, ctx.root);
    let after_root = sweep_files(ctx, Sweep::Direct, start, root_files)->0;
    if count == 0 {
        lemma_filter_distinct(
            ctx.entries,
            |e: FileInfoView| !e.is_dir && child_of(e.path, ctx.root),
        );
        lemma_files_in_listed(ctx.entries, ctx.root);
        lemma_sweep_sources(ctx, Sweep::Direct, start, root_files);
        assert forall|i: int| 0 <= i < after_root.actions.len() implies lies_directly(
            ctx.root,
            0,
            (#[trigger] after_root.actions[i]).source,
        ) by {
            let k = choose|k: int|
                0 <= k < root_files.len() && (#[trigger] root_files[k]).path
                    == after_root.actions[i].source && !stays(ctx, Sweep::Direct, root_files[k]);
        }
    } else {
        lemma_direct_sources(ctx, (count - 1) as nat);
        let before = sweep_category_folders(ctx, after_root, (count - 1) as nat)->0;
        let reached = sweep_category_folders(ctx, after_root, count)->0;
        let category = record_types()[count - 1];
        let dir = category_root(ctx.root, category);
        if ctx.options.covers(category) {
            let files = files_in(ctx.entries, dir);
            lemma_filter_distinct(ctx.entries, |e: FileInfoView| !e.is_dir && child_of(e.path, dir));
            lemma_files_in_listed(ctx.entries, dir);
            assert forall|k: int| 0 <= k < files.len() implies !moves(
                before.actions,
                (#[trigger] files[k]).path,
            ) by {
                if moves(before.actions, files[k].path) {
                    let i = choose|i: int|
                        0 <= i < before.actions.len() && (#[trigger] before.actions[i]).source
                            == files[k].path;
                    assert(lies_directly(ctx.root, (count - 1) as nat, before.actions[i].source));
                    lemma_zones_apart(ctx, category, files[k].path);
                    let m = choose|m: int|
                        0 <= m < count - 1 && child_of(
                            files[k].path,
                            #[trigger] category_root(ctx.root, record_types()[m]),
                        );
                    assert(record_types()[m] != category);
                }
            }
            lemma_sweep_sources(ctx, Sweep::Direct, before, files);
            assert forall|i: int| 0 <= i < reached.actions.len() implies lies_directly(
                ctx.root,
                count,
                (#[trigger] reached.actions[i]).source,
            ) by {
                if i < before.actions.len() {
                    assert(reached.actions[i] == before.actions[i]);
                    lemma_lies_directly_more(ctx.root, (count - 1) as nat, before.actions[i].source);
                } else {
                    let k = choose|k: int|
                        0 <= k < files.len() && (#[trigger] files[k]).path
                            == reached.actions[i].source && !stays(ctx, Sweep::Direct, files[k]);
                    assert(child_of(
                        reached.actions[i].source,
                        category_root(ctx.root, record_types()[count - 1]),
                    ));
                }
            }
        } else {
            assert forall|i: int| 0 <= i < reached.actions.len() implies lies_directly(
                ctx.root,
                count,
                (#[trigger] reached.actions[i]).source,
            ) by {
                lemma_lies_directly_more(ctx.root, (count - 1) as nat, before.actions[i].source);
            }
        }
    }
}

/// What lies directly in the root or in one of the first folders lies so
/// with one folder more.
pub proof fn lemma_lies_directly_more(root: Seq<char>, count: nat, path: Seq<char>)
    requires
        lies_directly(root, count, path),
    ensures
        lies_directly(root, count + 1, path),
{
    if !child_of(path, root) {
        let k = choose|k: int|
            0 <= k < count && child_of(path, #[trigger] category_root(root, record_types()[k]));
        assert(0 <= k < count + 1);
    }
}

/// What lies deep below one of the first folders lies so with one folder
/// more.
pub proof fn lemma_lies_deep_more(root: Seq<char>, count: nat, path: Seq<char>)
    requires
        lies_deep(root, count, path),
    ensures
        lies_deep(root, count + 1, path),
{
    let k = choose|k: int|
        0 <= k < count && under(path, #[trigger] category_root(root, record_types()[k]))
            && !child_of(path, category_root(root, record_types()[k]));
    assert(0 <= k < count + 1);
}

/// After the sweeps below the folders of the first `count` categories no
/// file is moved twice, and every moved file lay deep below one of these
/// folders.
#[verifier::rlimit(40)]
pub proof fn lemma_tree_sources(ctx: PlanContext, begin: SweepState, count: nat)
    requires
        listed_once(ctx.entries),
        begin.actions.len() == 0,
        count <= 3,
        sweep_category_trees(ctx, begin, count) is Some,
    ensures
        distinct_sources(sweep_category_trees(ctx, begin, count)->0.actions),
        forall|i: int|
            0 <= i < sweep_category_trees(ctx, begin, count)->0.actions.len() ==> lies_deep(
                ctx.root,
                count,
                (#[trigger] sweep_category_trees(ctx, begin, count)->0.actions[i]).source,
            ),
    decreases count,
{
    if count > 0 {
        lemma_tree_sources(ctx, begin, (count - 1) as nat);
        let before = sweep_category_trees(ctx, begin, (count - 1) as nat)->0;
        let reached = sweep_category_trees(ctx, begin, count)->0;
        let category = record_types()[count - 1];
        let dir = category_root(ctx.root, category);
        if ctx.options.covers(category) {
            let files = files_under(ctx.entries, dir);
            lemma_filter_distinct(ctx.entries, |e: FileInfoView| !e.is_dir && under(e.path, dir));
            lemma_files_under_listed(ctx.entries, dir);
            assert forall|k: int| 0 <= k < files.len() implies !moves(
                before.actions,
                (#[trigger] files[k]).path,
            ) by {
                if moves(before.actions, files[k].path) {
                    let i = choose|i: int|
                        0 <= i < before.actions.len() && (#[trigger] before.actions[i]).source
                            == files[k].path;
                    assert(lies_deep(ctx.root, (count - 1) as nat, before.actions[i].source));
                    let m = choose|m: int|
                        0 <= m < count - 1 && under(
                            files[k].path,
                            #[trigger] category_root(ctx.root, record_types()[m]),
                        ) && !child_of(files[k].path, category_root(ctx.root, record_types()[m]));
                    assert(record_types()[m] != category);
                    lemma_zones_apart(ctx, category, files[k].path);
                }
            }
            lemma_sweep_sources(ctx, Sweep::Nested(category), before, files);
            assert forall|i: int| 0 <= i < reached.actions.len() implies lies_deep(
                ctx.root,
                count,
                (#[trigger] reached.actions[i]).source,
            ) by {
                if i < before.actions.len() {
                    assert(reached.actions[i] == before.actions[i]);
                    lemma_lies_deep_more(ctx.root, (count - 1) as nat, before.actions[i].source);
                } else {
                    let k = choose|k: int|
                        0 <= k < files.len() && (#[trigger] files[k]).path
                            == reached.actions[i].source && !stays(
                            ctx,
                            Sweep::Nested(category),
                            files[k],
                        );
                    assert(under(
                        reached.actions[i].source,
                        category_root(ctx.root, record_types()[count - 1]),
                    ));
                }
            }
        } else {
            assert forall|i: int| 0 <= i < reached.actions.len() implies lies_deep(
                ctx.root,
                count,
                (#[trigger] reached.actions[i]).source,
            ) by {
                lemma_lies_deep_more(ctx.root, (count - 1) as nat, before.actions[i].source);
            }
        }
    }
}

/// After the sweeps below the stray folders among the first `count`
/// entries no file is moved twice, and every moved file lay deep below the
/// folder of a category or below one of these stray folders.
#[verifier::rlimit(40)]
pub proof fn lemma_stray_sources(ctx: PlanContext, middle: SweepState, count: nat)
    requires
        listed_once(ctx.entries),
        distinct_sources(middle.actions),
        forall|i: int|
            0 <= i < middle.actions.len() ==> lies_deep(
                ctx.root,
                3,
                (#[trigger] middle.actions[i]).source,
            ),
        count <= ctx.entries.len(),
        sweep_stray_folders(ctx, middle, count) is Some,
    ensures
        distinct_sources(sweep_stray_folders(ctx, middle, count)->0.actions),
        forall|i: int|
            0 <= i < sweep_stray_folders(ctx, middle, count)->0.actions.len() ==> lies_deep(
                ctx.root,
                3,
                (#[trigger] sweep_stray_folders(ctx, middle, count)->0.actions[i]).source,
            ) || lies_astray(
                ctx,
                count,
                sweep_stray_folders(ctx, middle, count)->0.actions[i].source,
            ),
    decreases count,
{
    if count > 0 {
        lemma_stray_sources(ctx, middle, (count - 1) as nat);
        let before = sweep_stray_folders(ctx, middle, (count - 1) as nat)->0;
        let reached = sweep_stray_folders(ctx, middle, count)->0;
        let entry = ctx.entries[count - 1];
        if is_stray_folder(ctx.root, entry) {
            let files = files_under(ctx.entries, entry.path);
            lemma_filter_distinct(
                ctx.entries,
                |e: FileInfoView| !e.is_dir && under(e.path, entry.path),
            );
            lemma_files_under_listed(ctx.entries, entry.path);
            assert forall|k: int| 0 <= k < files.len() implies !moves(
                before.actions,
                (#[trigger] files[k]).path,
            ) by {
                if moves(before.actions, files[k].path) {
                    let i = choose|i: int|
                        0 <= i < before.actions.len() && (#[trigger] before.actions[i]).source
                            == files[k].path;
                    let path = files[k].path;
                    if lies_deep(ctx.root, 3, path) {
                        let m = choose|m: int|
                            0 <= m < 3 && under(
                                path,
                                #[trigger] category_root(ctx.root, record_types()[m]),
                            ) && !child_of(path, category_root(ctx.root, record_types()[m]));
                        lemma_zones_apart(ctx, record_types()[m], path);
                        assert(is_stray_folder(ctx.root, ctx.entries[count - 1]));
                    } else {
                        assert(lies_astray(ctx, (count - 1) as nat, path));
                        let j = choose|j: int|
                            0 <= j < count - 1 && j < ctx.entries.len() && is_stray_folder(
                                ctx.root,
                                #[trigger] ctx.entries[j],
                            ) && under(path, ctx.entries[j].path);
                        lemma_strays_apart(ctx, j, path);
                        assert(is_stray_folder(ctx.root, ctx.entries[count - 1]));
                    }
                }
            }
            lemma_sweep_sources(ctx, Sweep::Stray, before, files);
            assert forall|i: int| 0 <= i < reached.actions.len() implies lies_deep(
                ctx.root,
                3,
                (#[trigger] reached.actions[i]).source,
            ) || lies_astray(ctx, count, reached.actions[i].source) by {
                if i < before.actions.len() {
                    assert(reached.actions[i] == before.actions[i]);
                    lemma_lies_astray_more(ctx, (count - 1) as nat, before.actions[i].source);
                } else {
                    let k = choose|k: int|
                        0 <= k < files.len() && (#[trigger] files[k]).path
                            == reached.actions[i].source && !stays(ctx, Sweep::Stray, files[k]);
                    assert(is_stray_folder(ctx.root, ctx.entries[count - 1]) && under(
                        reached.actions[i].source,
                        ctx.entries[count - 1].path,
                    ));
                }
            }
        } else {
            assert forall|i: int| 0 <= i < reached.actions.len() implies lies_deep(
                ctx.root,
                3,
                (#[trigger] reached.actions[i]).source,
            ) || lies_astray(ctx, count, reached.actions[i].source) by {
                lemma_lies_astray_more(ctx, (count - 1) as nat, before.actions[i].source);
            }
        }
    }
}

/// What lies below one of the first stray folders lies so with one entry
/// more.
pub proof fn lemma_lies_astray_more(ctx: PlanContext, count: nat, path: Seq<char>)
    ensures
        lies_astray(ctx, count, path) ==> lies_astray(ctx, count + 1, path),
{
    if lies_astray(ctx, count, path) {
        let j = choose|j: int|
            0 <= j < count && j < ctx.entries.len() && is_stray_folder(
                ctx.root,
                #[trigger] ctx.entries[j],
            ) && under(path, ctx.entries[j].path);
        assert(0 <= j < count + 1);
    }
}

/// What lies directly in the root or in the folder of a category lies
/// neither deep below such a folder nor below a stray folder.
pub proof fn lemma_direct_apart(ctx: PlanContext, path: Seq<char>)
    requires
        listed_once(ctx.entries),
        lies_directly(ctx.root, 3, path),
    ensures
        !lies_deep(ctx.root, 3, path),
        !lies_astray(ctx, ctx.entries.len(), path),
{
    if lies_deep(ctx.root, 3, path) {
        let m = choose|m: int|
            0 <= m < 3 && under(path, #[trigger] category_root(ctx.root, record_types()[m]))
                && !child_of(path, category_root(ctx.root, record_types()[m]));
        lemma_zones_apart(ctx, record_types()[m], path);
        if !child_of(path, ctx.root) {
            let k = choose|k: int|
                0 <= k < 3 && child_of(path, #[trigger] category_root(ctx.root, record_types()[k]));
            if k != m {
                assert(record_types()[k] != record_types()[m]);
            }
        }
    }
    if lies_astray(ctx, ctx.entries.len(), path) {
        let j = choose|j: int|
            0 <= j < ctx.entries.len() && is_stray_folder(ctx.root, #[trigger] ctx.entries[j])
                && under(path, ctx.entries[j].path);
        lemma_strays_apart(ctx, j, path);
        if !child_of(path, ctx.root) {
            let k = choose|k: int|
                0 <= k < 3 && child_of(path, #[trigger] category_root(ctx.root, record_types()[k]));
            lemma_zones_apart(ctx, record_types()[k], path);
        }
    }
}

/// No file is moved twice: in a plan made from a scan that lists no path
/// twice, no two actions have one source.
pub proof fn lemma_each_file_moved_once(ctx: PlanContext)
    requires
        listed_once(ctx.entries),
        plan_of(ctx) is Some,
    ensures
        distinct_sources(planned(ctx)->0.actions),
        distinct_sources(plan_of(ctx)->0.actions),
{
    let decided = planned(ctx)->0.actions;
    if crate::scanner::listed(ctx.entries, ctx.root) {
        let none = Seq::<Seq<char>>::empty();
        let start = SweepState { folders: none, actions: Seq::<ActionView>::empty(), planned: none };
        lemma_direct_sources(ctx, 3);
        let direct = direct_sweeps(ctx)->0;
        if ctx.options.check_misplaced {
            let begin = SweepState {
                folders: none,
                actions: Seq::<ActionView>::empty(),
                planned: direct.planned,
            };
            lemma_tree_sources(ctx, begin, 3);
            let middle = sweep_category_trees(ctx, begin, 3)->0;
            lemma_stray_sources(ctx, middle, ctx.entries.len());
            let moved = misplaced(ctx, direct.planned)->0;
            assert(decided == direct.actions + moved.actions);
            assert forall|i: int, j: int| 0 <= i < j < decided.len() implies (
            #[trigger] decided[i]).source != (#[trigger] decided[j]).source by {
                let n = direct.actions.len() as int;
                if j < n {
                    assert(decided[i] == direct.actions[i]);
                    assert(decided[j] == direct.actions[j]);
                } else if i >= n {
                    assert(decided[i] == moved.actions[i - n]);
                    assert(decided[j] == moved.actions[j - n]);
                } else {
                    assert(decided[i] == direct.actions[i]);
                    assert(decided[j] == moved.actions[j - n]);
                    lemma_direct_apart(ctx, direct.actions[i].source);
                }
            }
        }
    }
    lemma_sorted_sources(decided);
}

/// Putting actions in order moves no file twice where none was moved twice
/// before.
pub proof fn lemma_sorted_sources(actions: Seq<ActionView>)
    requires
        distinct_sources(actions),
    ensures
        distinct_sources(crate::sorting::sorted_actions(actions)),
{
    broadcast use vstd::seq_lib::group_to_multiset_ensures;

    let sorted = crate::sorting::sorted_actions(actions);
    crate::sorting::lemma_sorted_actions(actions);
    assert(actions.no_duplicates()) by {
        assert forall|i: int, j: int|
            0 <= i < actions.len() && 0 <= j < actions.len() && i != j implies actions[i]
            != actions[j] by {
            if i < j {
                assert(actions[i].source != actions[j].source);
            } else {
                assert(actions[j].source != actions[i].source);
            }
        }
    }
    actions.lemma_multiset_has_no_duplicates();
    sorted.lemma_multiset_has_no_duplicates_conv();
    assert forall|i: int, j: int| 0 <= i < j < sorted.len() implies (#[trigger] sorted[i]).source
        != (#[trigger] sorted[j]).source by {
        assert(sorted[i] != sorted[j]);
        assert(sorted.to_multiset().contains(sorted[i]));
        assert(sorted.to_multiset().contains(sorted[j]));
        let a = choose|a: int| 0 <= a < actions.len() && actions[a] == sorted[i];
        let b = choose|b: int| 0 <= b < actions.len() && actions[b] == sorted[j];
        if a < b {
            assert(actions[a].source != actions[b].source);
        } else {
            assert(actions[b].source != actions[a].source);
        }
    }
}

} // verus!
