//! A folder in which nothing is left to do: every file stays where it is in
//! every sweep that comes by it. The plan for such a folder is empty.

use vstd::prelude::*;
use crate::paths::{child_of, under};
use crate::plan_laws::{lemma_files_in_listed, lemma_files_under_listed};
use crate::planner::{
    category_root, direct_sweeps, is_stray_folder, misplaced, plan_of, planned, stays,
    sweep_category_folders, sweep_category_trees, sweep_files, sweep_stray_folders, PlanContext,
    Sweep, SweepState,
};
use crate::record_manager::{record_types, ActionView, PlanView, RecordType};
use crate::scanner::{files_in, files_under, listed, FileInfoView};
use crate::sorting::sorted_actions;

verus! {

/// The plan for `root` that asks for nothing.
pub open spec fn empty_plan(root: Seq<char>) -> PlanView {
    PlanView {
        record_root: root,
        actions: Seq::<ActionView>::empty(),
        required_folders: Seq::<Seq<char>>::empty(),
    }
}

/// The file stays where it is in every sweep that comes by it: the sweep of
/// the root or of a covered category's folder where it lies directly in it,
/// and, where misplaced files are looked for, the sweep below a covered
/// category's folder and the sweep below a stray folder where it lies
/// below one.
pub open spec fn rests(ctx: PlanContext, file: FileInfoView) -> bool {
    &&& child_of(file.path, ctx.root) ==> stays(ctx, Sweep::Direct, file)
    &&& forall|category: RecordType|
        ctx.options.covers(category) && child_of(
            file.path,
            #[trigger] category_root(ctx.root, category),
        ) ==> stays(ctx, Sweep::Direct, file)
    &&& ctx.options.check_misplaced ==> {
        &&& forall|category: RecordType|
            ctx.options.covers(category) && under(
                file.path,
                #[trigger] category_root(ctx.root, category),
            ) ==> stays(ctx, Sweep::Nested(category), file)
        &&& forall|j: int|
            0 <= j < ctx.entries.len() && is_stray_folder(ctx.root, #[trigger] ctx.entries[j])
                && under(file.path, ctx.entries[j].path) ==> stays(ctx, Sweep::Stray, file)
    }
}

/// The scan lists the root, and every file that it lists rests.
pub open spec fn settled(ctx: PlanContext) -> bool {
    &&& listed(ctx.entries, ctx.root)
    &&& forall|i: int|
        0 <= i < ctx.entries.len() && !(#[trigger] ctx.entries[i]).is_dir ==> rests(
            ctx,
            ctx.entries[i],
        )
}

/// A sweep over files that all stay changes nothing.
pub proof fn lemma_sweep_of_staying(
    ctx: PlanContext,
    sweep: Sweep,
    state: SweepState,
    files: Seq<FileInfoView>,
)
    requires
        forall|k: int| 0 <= k < files.len() ==> stays(ctx, sweep, #[trigger] files[k]),
    ensures
        sweep_files(ctx, sweep, state, files) == Some(state),
    decreases files.len(),
{
    if files.len() > 0 {
        let front = files.drop_last();
        assert forall|k: int| 0 <= k < front.len() implies stays(ctx, sweep, #[trigger] front[k]) by {
            assert(front[k] == files[k]);
        }
        lemma_sweep_of_staying(ctx, sweep, state, front);
        assert(files.last() == files[files.len() - 1]);
    }
}

/// Every listed file that lies in `dir` and is found by `sweep` stays.
pub open spec fn stay_in(ctx: PlanContext, sweep: Sweep, dir: Seq<char>) -> bool {
    forall|i: int|
        0 <= i < ctx.entries.len() && !(#[trigger] ctx.entries[i]).is_dir && child_of(
            ctx.entries[i].path,
            dir,
        ) ==> stays(ctx, sweep, ctx.entries[i])
}

/// Every listed file that lies below `dir` and is found by `sweep` stays.
pub open spec fn stay_under(ctx: PlanContext, sweep: Sweep, dir: Seq<char>) -> bool {
    forall|i: int|
        0 <= i < ctx.entries.len() && !(#[trigger] ctx.entries[i]).is_dir && under(
            ctx.entries[i].path,
            dir,
        ) ==> stays(ctx, sweep, ctx.entries[i])
}

/// A sweep of a folder in which every listed file stays changes nothing.
pub proof fn lemma_sweep_in_changes_nothing(
    ctx: PlanContext,
    sweep: Sweep,
    state: SweepState,
    dir: Seq<char>,
)
    requires
        stay_in(ctx, sweep, dir),
    ensures
        sweep_files(ctx, sweep, state, files_in(ctx.entries, dir)) == Some(state),
{
    let files = files_in(ctx.entries, dir);
    lemma_files_in_listed(ctx.entries, dir);
    assert forall|k: int| 0 <= k < files.len() implies stays(ctx, sweep, #[trigger] files[k]) by {
        assert(ctx.entries.contains(files[k]));
        let i = choose|i: int| 0 <= i < ctx.entries.len() && ctx.entries[i] == files[k];
        assert(!ctx.entries[i].is_dir && child_of(ctx.entries[i].path, dir));
    }
    lemma_sweep_of_staying(ctx, sweep, state, files);
}

/// A sweep below a folder below which every listed file stays changes
/// nothing.
pub proof fn lemma_sweep_under_changes_nothing(
    ctx: PlanContext,
    sweep: Sweep,
    state: SweepState,
    dir: Seq<char>,
)
    requires
        stay_under(ctx, sweep, dir),
    ensures
        sweep_files(ctx, sweep, state, files_under(ctx.entries, dir)) == Some(state),
{
    let files = files_under(ctx.entries, dir);
    lemma_files_under_listed(ctx.entries, dir);
    assert forall|k: int| 0 <= k < files.len() implies stays(ctx, sweep, #[trigger] files[k]) by {
        assert(ctx.entries.contains(files[k]));
        let i = choose|i: int| 0 <= i < ctx.entries.len() && ctx.entries[i] == files[k];
        assert(!ctx.entries[i].is_dir && under(ctx.entries[i].path, dir));
    }
    lemma_sweep_of_staying(ctx, sweep, state, files);
}

/// In a settled folder the sweeps of the categories' folders change
/// nothing.
pub proof fn lemma_settled_category_folders(ctx: PlanContext, state: SweepState, count: nat)
    requires
        settled(ctx),
        count <= 3,
    ensures
        sweep_category_folders(ctx, state, count) == Some(state),
    decreases count,
{
    if count > 0 {
        lemma_settled_category_folders(ctx, state, (count - 1) as nat);
        let category = record_types()[count - 1];
        if ctx.options.covers(category) {
            let dir = category_root(ctx.root, category);
            assert(stay_in(ctx, Sweep::Direct, dir)) by {
                assert forall|i: int|
                    0 <= i < ctx.entries.len() && !(#[trigger] ctx.entries[i]).is_dir && child_of(
                        ctx.entries[i].path,
                        dir,
                    ) implies stays(ctx, Sweep::Direct, ctx.entries[i]) by {
                    assert(rests(ctx, ctx.entries[i]));
                }
            }
            lemma_sweep_in_changes_nothing(ctx, Sweep::Direct, state, dir);
        }
    }
}

/// In a settled folder the sweeps below the categories' folders change
/// nothing.
pub proof fn lemma_settled_category_trees(ctx: PlanContext, state: SweepState, count: nat)
    requires
        settled(ctx),
        ctx.options.check_misplaced,
        count <= 3,
    ensures
        sweep_category_trees(ctx, state, count) == Some(state),
    decreases count,
{
    if count > 0 {
        lemma_settled_category_trees(ctx, state, (count - 1) as nat);
        let category = record_types()[count - 1];
        if ctx.options.covers(category) {
            let dir = category_root(ctx.root, category);
            assert(stay_under(ctx, Sweep::Nested(category), dir)) by {
                assert forall|i: int|
                    0 <= i < ctx.entries.len() && !(#[trigger] ctx.entries[i]).is_dir && under(
                        ctx.entries[i].path,
                        dir,
                    ) implies stays(ctx, Sweep::Nested(category), ctx.entries[i]) by {
                    assert(rests(ctx, ctx.entries[i]));
                }
            }
            lemma_sweep_under_changes_nothing(ctx, Sweep::Nested(category), state, dir);
        }
    }
}

/// In a settled folder the sweeps below the stray folders change nothing.
pub proof fn lemma_settled_stray_folders(ctx: PlanContext, state: SweepState, count: nat)
    requires
        settled(ctx),
        ctx.options.check_misplaced,
        count <= ctx.entries.len(),
    ensures
        sweep_stray_folders(ctx, state, count) == Some(state),
    decreases count,
{
    if count > 0 {
        lemma_settled_stray_folders(ctx, state, (count - 1) as nat);
        let entry = ctx.entries[count - 1];
        if is_stray_folder(ctx.root, entry) {
            assert(stay_under(ctx, Sweep::Stray, entry.path)) by {
                assert forall|i: int|
                    0 <= i < ctx.entries.len() && !(#[trigger] ctx.entries[i]).is_dir && under(
                        ctx.entries[i].path,
                        entry.path,
                    ) implies stays(ctx, Sweep::Stray, ctx.entries[i]) by {
                    assert(rests(ctx, ctx.entries[i]));
                }
            }
            lemma_sweep_under_changes_nothing(ctx, Sweep::Stray, state, entry.path);
        }
    }
}

/// The plan for a settled folder is empty: nothing to create, nothing to
/// move.
pub proof fn lemma_settled_plan_is_empty(ctx: PlanContext)
    requires
        settled(ctx),
    ensures
        plan_of(ctx) == Some(empty_plan(ctx.root)),
{
    let none = Seq::<Seq<char>>::empty();
    let start = SweepState { folders: none, actions: Seq::<ActionView>::empty(), planned: none };
    assert(stay_in(ctx, Sweep::Direct, ctx.root)) by {
        assert forall|i: int|
            0 <= i < ctx.entries.len() && !(#[trigger] ctx.entries[i]).is_dir && child_of(
                ctx.entries[i].path,
                ctx.root,
            ) implies stays(ctx, Sweep::Direct, ctx.entries[i]) by {
            assert(rests(ctx, ctx.entries[i]));
        }
    }
    lemma_sweep_in_changes_nothing(ctx, Sweep::Direct, start, ctx.root);
    lemma_settled_category_folders(ctx, start, 3);
    assert(direct_sweeps(ctx) == Some(start));
    if ctx.options.check_misplaced {
        lemma_settled_category_trees(ctx, start, 3);
        lemma_settled_stray_folders(ctx, start, ctx.entries.len());
        assert(misplaced(ctx, none) == Some(start));
        assert(start.actions + start.actions =~= start.actions);
    }
    assert(planned(ctx) == Some(empty_plan(ctx.root)));
    assert(sorted_actions(Seq::<ActionView>::empty()) =~= Seq::<ActionView>::empty());
}

} // verus!
