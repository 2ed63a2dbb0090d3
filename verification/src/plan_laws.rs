//! What holds of every plan: each action moves a listed file of a covered
//! category to the path that the rules give it, no two actions have one
//! target, and no target is a path that the scan lists.

use vstd::prelude::*;
use crate::classify::category_of;
use crate::paths::{child_of, joined, under};
use crate::planner::{
    direct_sweeps, kind_of, misplaced, planned, stays, sweep_category_folders,
    sweep_category_trees, sweep_files, sweep_stray_folders, visit, wanted_folder, wanted_name,
    category_root, is_stray_folder, PlanContext, Sweep, SweepState,
};
use crate::record_manager::{record_types, ActionView};
use crate::scanner::{files_in, files_under, listed, FileInfoView};
use crate::sorting::{lemma_sorted_actions, sorted_actions};
use crate::target::{lemma_unique_target, numbered_name, unique_target};

verus! {

/// The targets of the actions, in order.
pub open spec fn targets_of(actions: Seq<ActionView>) -> Seq<Seq<char>> {
    Seq::new(actions.len(), |i: int| actions[i].target)
}

/// No two actions have one target.
pub open spec fn distinct_targets(actions: Seq<ActionView>) -> bool {
    forall|i: int, j: int|
        0 <= i < j < actions.len() ==> (#[trigger] actions[i]).target != (
        #[trigger] actions[j]).target
}

/// The scan lists no target.
pub open spec fn fresh_targets(entries: Seq<FileInfoView>, actions: Seq<ActionView>) -> bool {
    forall|i: int| 0 <= i < actions.len() ==> !listed(entries, (#[trigger] actions[i]).target)
}

/// `target` is where `file` is to lie: in the folder that it is to lie in,
/// under the name that it is to have or under that name with a counter from
/// 2 on.
pub open spec fn routed(ctx: PlanContext, file: FileInfoView, target: Seq<char>) -> bool {
    ||| target == joined(wanted_folder(ctx, file), wanted_name(file))
    ||| exists|index: nat|
        2 <= index && target == joined(
            wanted_folder(ctx, file),
            #[trigger] numbered_name(wanted_name(file), index),
        )
}

/// `action` moves `file`, a file of a covered category, to where it is to
/// lie.
pub open spec fn is_route(ctx: PlanContext, file: FileInfoView, action: ActionView) -> bool {
    &&& !file.is_dir
    &&& file.path == action.source
    &&& ctx.options.covers(category_of(file.path))
    &&& routed(ctx, file, action.target)
}

/// `action` moves a file that the scan lists to where it is to lie.
pub open spec fn justified(ctx: PlanContext, action: ActionView) -> bool {
    exists|i: int| 0 <= i < ctx.entries.len() && is_route(ctx, #[trigger] ctx.entries[i], action)
}

/// Every action is justified.
pub open spec fn all_justified(ctx: PlanContext, actions: Seq<ActionView>) -> bool {
    forall|i: int| 0 <= i < actions.len() ==> justified(ctx, #[trigger] actions[i])
}

/// What holds while a plan is made: the planned targets are those planned
/// earlier and those of the actions, none twice, none listed; and every
/// action is justified.
pub open spec fn state_inv(ctx: PlanContext, earlier: Seq<Seq<char>>, state: SweepState) -> bool {
    &&& state.planned == earlier + targets_of(state.actions)
    &&& state.planned.no_duplicates()
    &&& forall|i: int|
        0 <= i < state.planned.len() ==> !listed(ctx.entries, #[trigger] state.planned[i])
    &&& all_justified(ctx, state.actions)
}

/// Every entry of `files` is a file that the scan lists.
pub open spec fn listed_files(entries: Seq<FileInfoView>, files: Seq<FileInfoView>) -> bool {
    forall|k: int|
        0 <= k < files.len() ==> !(#[trigger] files[k]).is_dir && entries.contains(files[k])
}

/// One file more keeps what holds while a plan is made.
pub proof fn lemma_visit_keeps(
    ctx: PlanContext,
    sweep: Sweep,
    earlier: Seq<Seq<char>>,
    state: SweepState,
    file: FileInfoView,
)
    requires
        state_inv(ctx, earlier, state),
        !file.is_dir,
        ctx.entries.contains(file),
        visit(ctx, sweep, state, file) is Some,
    ensures
        state_inv(ctx, earlier, visit(ctx, sweep, state, file)->0),
{
    let after = visit(ctx, sweep, state, file)->0;
    if !stays(ctx, sweep, file) {
        let folder = wanted_folder(ctx, file);
        let name = wanted_name(file);
        lemma_unique_target(folder, name, ctx.entries, state.planned);
        let target = unique_target(folder, name, ctx.entries, state.planned)->0;
        let action = ActionView { source: file.path, target, action_type: kind_of(sweep, file) };
        assert(after.actions == state.actions.push(action));
        assert(after.planned == state.planned.push(target));
        assert(after.planned =~= earlier + targets_of(after.actions));
        assert(!state.planned.contains(target));
        assert(after.planned.no_duplicates()) by {
            assert forall|i: int, j: int|
                0 <= i < after.planned.len() && 0 <= j < after.planned.len() && i != j implies after.planned[i]
                != after.planned[j] by {
                if i < state.planned.len() && j < state.planned.len() {
                } else if i < state.planned.len() {
                    assert(state.planned.contains(state.planned[i]));
                } else {
                    assert(state.planned.contains(state.planned[j]));
                }
            }
        }
        let at = choose|i: int| 0 <= i < ctx.entries.len() && ctx.entries[i] == file;
        assert(is_route(ctx, ctx.entries[at], action));
        assert forall|i: int| 0 <= i < after.actions.len() implies justified(
            ctx,
            #[trigger] after.actions[i],
        ) by {
            if i < state.actions.len() {
                assert(after.actions[i] == state.actions[i]);
            }
        }
    }
}

/// A sweep over listed files keeps what holds while a plan is made.
pub proof fn lemma_sweep_keeps(
    ctx: PlanContext,
    sweep: Sweep,
    earlier: Seq<Seq<char>>,
    state: SweepState,
    files: Seq<FileInfoView>,
)
    requires
        state_inv(ctx, earlier, state),
        listed_files(ctx.entries, files),
        sweep_files(ctx, sweep, state, files) is Some,
    ensures
        state_inv(ctx, earlier, sweep_files(ctx, sweep, state, files)->0),
    decreases files.len(),
{
    if files.len() > 0 {
        let front = files.drop_last();
        assert forall|k: int| 0 <= k < front.len() implies !(#[trigger] front[k]).is_dir
            && ctx.entries.contains(front[k]) by {
            assert(front[k] == files[k]);
        }
        lemma_sweep_keeps(ctx, sweep, earlier, state, front);
        let before = sweep_files(ctx, sweep, state, front)->0;
        assert(files.last() == files[files.len() - 1]);
        lemma_visit_keeps(ctx, sweep, earlier, before, files.last());
    }
}

/// The files directly in a folder are files that the scan lists.
pub proof fn lemma_files_in_listed(entries: Seq<FileInfoView>, dir: Seq<char>)
    ensures
        listed_files(entries, files_in(entries, dir)),
        forall|k: int|
            0 <= k < files_in(entries, dir).len() ==> child_of(
                (#[trigger] files_in(entries, dir)[k]).path,
                dir,
            ),
{
    let keep = |e: FileInfoView| !e.is_dir && child_of(e.path, dir);
    let found = entries.filter(keep);
    assert forall|k: int| 0 <= k < found.len() implies !(#[trigger] found[k]).is_dir
        && entries.contains(found[k]) && child_of(found[k].path, dir) by {
        entries.lemma_filter_pred(keep, k);
        assert(found.contains(found[k]));
        entries.lemma_filter_contains_rev(keep, found[k]);
    }
}

/// The files below a folder are files that the scan lists.
pub proof fn lemma_files_under_listed(entries: Seq<FileInfoView>, dir: Seq<char>)
    ensures
        listed_files(entries, files_under(entries, dir)),
        forall|k: int|
            0 <= k < files_under(entries, dir).len() ==> under(
                (#[trigger] files_under(entries, dir)[k]).path,
                dir,
            ),
{
    let keep = |e: FileInfoView| !e.is_dir && under(e.path, dir);
    let found = entries.filter(keep);
    assert forall|k: int| 0 <= k < found.len() implies !(#[trigger] found[k]).is_dir
        && entries.contains(found[k]) && under(found[k].path, dir) by {
        entries.lemma_filter_pred(keep, k);
        assert(found.contains(found[k]));
        entries.lemma_filter_contains_rev(keep, found[k]);
    }
}

/// The sweeps of the categories' folders keep what holds while a plan is
/// made.
pub proof fn lemma_category_folders_keep(
    ctx: PlanContext,
    earlier: Seq<Seq<char>>,
    state: SweepState,
    count: nat,
)
    requires
        state_inv(ctx, earlier, state),
        count <= 3,
        sweep_category_folders(ctx, state, count) is Some,
    ensures
        state_inv(ctx, earlier, sweep_category_folders(ctx, state, count)->0),
    decreases count,
{
    if count > 0 {
        lemma_category_folders_keep(ctx, earlier, state, (count - 1) as nat);
        let before = sweep_category_folders(ctx, state, (count - 1) as nat)->0;
        let category = record_types()[count - 1];
        if ctx.options.covers(category) {
            let dir = category_root(ctx.root, category);
            lemma_files_in_listed(ctx.entries, dir);
            lemma_sweep_keeps(ctx, Sweep::Direct, earlier, before, files_in(ctx.entries, dir));
        }
    }
}

/// The sweeps below the categories' folders keep what holds while a plan is
/// made.
pub proof fn lemma_category_trees_keep(
    ctx: PlanContext,
    earlier: Seq<Seq<char>>,
    state: SweepState,
    count: nat,
)
    requires
        state_inv(ctx, earlier, state),
        count <= 3,
        sweep_category_trees(ctx, state, count) is Some,
    ensures
        state_inv(ctx, earlier, sweep_category_trees(ctx, state, count)->0),
    decreases count,
{
    if count > 0 {
        lemma_category_trees_keep(ctx, earlier, state, (count - 1) as nat);
        let before = sweep_category_trees(ctx, state, (count - 1) as nat)->0;
        let category = record_types()[count - 1];
        if ctx.options.covers(category) {
            let dir = category_root(ctx.root, category);
            lemma_files_under_listed(ctx.entries, dir);
            lemma_sweep_keeps(
                ctx,
                Sweep::Nested(category),
                earlier,
                before,
                files_under(ctx.entries, dir),
            );
        }
    }
}

/// The sweeps below the stray folders keep what holds while a plan is made.
pub proof fn lemma_stray_folders_keep(
    ctx: PlanContext,
    earlier: Seq<Seq<char>>,
    state: SweepState,
    count: nat,
)
    requires
        state_inv(ctx, earlier, state),
        count <= ctx.entries.len(),
        sweep_stray_folders(ctx, state, count) is Some,
    ensures
        state_inv(ctx, earlier, sweep_stray_folders(ctx, state, count)->0),
    decreases count,
{
    if count > 0 {
        lemma_stray_folders_keep(ctx, earlier, state, (count - 1) as nat);
        let before = sweep_stray_folders(ctx, state, (count - 1) as nat)->0;
        let entry = ctx.entries[count - 1];
        if is_stray_folder(ctx.root, entry) {
            lemma_files_under_listed(ctx.entries, entry.path);
            lemma_sweep_keeps(
                ctx,
                Sweep::Stray,
                earlier,
                before,
                files_under(ctx.entries, entry.path),
            );
        }
    }
}

/// The actions of a plan, in the order in which they were decided: each is
/// justified, no two have one target, and no target is listed.
pub proof fn lemma_planned_sound(ctx: PlanContext)
    requires
        planned(ctx) is Some,
    ensures
        all_justified(ctx, planned(ctx)->0.actions),
        distinct_targets(planned(ctx)->0.actions),
        fresh_targets(ctx.entries, planned(ctx)->0.actions),
{
    let plan = planned(ctx)->0;
    if listed(ctx.entries, ctx.root) {
        let none = Seq::<Seq<char>>::empty();
        let start = SweepState {
            folders: Seq::<Seq<char>>::empty(),
            actions: Seq::<ActionView>::empty(),
            planned: none,
        };
        assert(start.planned =~= none + targets_of(start.actions));
        lemma_files_in_listed(ctx.entries, ctx.root);
        lemma_sweep_keeps(ctx, Sweep::Direct, none, start, files_in(ctx.entries, ctx.root));
        let after_root = sweep_files(ctx, Sweep::Direct, start, files_in(ctx.entries, ctx.root))->0;
        lemma_category_folders_keep(ctx, none, after_root, 3);
        let direct = direct_sweeps(ctx)->0;
        assert(direct.planned =~= targets_of(direct.actions));
        if ctx.options.check_misplaced {
            let begin = SweepState {
                folders: Seq::<Seq<char>>::empty(),
                actions: Seq::<ActionView>::empty(),
                planned: direct.planned,
            };
            assert(begin.planned =~= direct.planned + targets_of(begin.actions));
            lemma_category_trees_keep(ctx, direct.planned, begin, 3);
            let middle = sweep_category_trees(ctx, begin, 3)->0;
            lemma_stray_folders_keep(ctx, direct.planned, middle, ctx.entries.len());
            let moved = misplaced(ctx, direct.planned)->0;
            assert(plan.actions == direct.actions + moved.actions);
            assert(moved.planned =~= targets_of(plan.actions));
            assert forall|i: int| 0 <= i < plan.actions.len() implies justified(
                ctx,
                #[trigger] plan.actions[i],
            ) by {
                if i < direct.actions.len() {
                    assert(plan.actions[i] == direct.actions[i]);
                } else {
                    assert(plan.actions[i] == moved.actions[i - direct.actions.len()]);
                }
            }
            lemma_targets(ctx.entries, plan.actions, moved.planned);
        } else {
            lemma_targets(ctx.entries, plan.actions, direct.planned);
        }
    }
}

/// Targets that are planned once each and are not listed are distinct and
/// fresh.
pub proof fn lemma_targets(
    entries: Seq<FileInfoView>,
    actions: Seq<ActionView>,
    planned_targets: Seq<Seq<char>>,
)
    requires
        planned_targets == targets_of(actions),
        planned_targets.no_duplicates(),
        forall|i: int| 0 <= i < planned_targets.len() ==> !listed(entries, #[trigger] planned_targets[i]),
    ensures
        distinct_targets(actions),
        fresh_targets(entries, actions),
{
    assert forall|i: int, j: int| 0 <= i < j < actions.len() implies (#[trigger] actions[i]).target
        != (#[trigger] actions[j]).target by {
        assert(planned_targets[i] == actions[i].target);
        assert(planned_targets[j] == actions[j].target);
    }
    assert forall|i: int| 0 <= i < actions.len() implies !listed(
        entries,
        (#[trigger] actions[i]).target,
    ) by {
        assert(planned_targets[i] == actions[i].target);
    }
}

/// Putting the actions in order changes neither which actions there are nor
/// that their targets are distinct.
pub proof fn lemma_sorted_keeps(ctx: PlanContext, actions: Seq<ActionView>)
    requires
        distinct_targets(actions),
    ensures
        distinct_targets(sorted_actions(actions)),
        forall|i: int|
            0 <= i < sorted_actions(actions).len() ==> actions.contains(
                #[trigger] sorted_actions(actions)[i],
            ),
        forall|i: int|
            0 <= i < actions.len() ==> sorted_actions(actions).contains(#[trigger] actions[i]),
        all_justified(ctx, actions) ==> all_justified(ctx, sorted_actions(actions)),
        fresh_targets(ctx.entries, actions) ==> fresh_targets(ctx.entries, sorted_actions(actions)),
{
    broadcast use vstd::seq_lib::group_to_multiset_ensures;

    let sorted = sorted_actions(actions);
    lemma_sorted_actions(actions);
    assert(actions.no_duplicates()) by {
        assert forall|i: int, j: int|
            0 <= i < actions.len() && 0 <= j < actions.len() && i != j implies actions[i]
            != actions[j] by {
            if i < j {
                assert(actions[i].target != actions[j].target);
            } else {
                assert(actions[j].target != actions[i].target);
            }
        }
    }
    actions.lemma_multiset_has_no_duplicates();
    sorted.lemma_multiset_has_no_duplicates_conv();
    assert forall|i: int| 0 <= i < sorted.len() implies actions.contains(#[trigger] sorted[i]) by {
        assert(sorted.to_multiset().contains(sorted[i]));
    }
    assert forall|i: int| 0 <= i < actions.len() implies sorted.contains(#[trigger] actions[i]) by {
        assert(actions.to_multiset().contains(actions[i]));
    }
    assert forall|i: int, j: int| 0 <= i < j < sorted.len() implies (#[trigger] sorted[i]).target
        != (#[trigger] sorted[j]).target by {
        assert(sorted[i] != sorted[j]);
        assert(actions.contains(sorted[i]));
        assert(actions.contains(sorted[j]));
        let a = choose|a: int| 0 <= a < actions.len() && actions[a] == sorted[i];
        let b = choose|b: int| 0 <= b < actions.len() && actions[b] == sorted[j];
        if a < b {
            assert(actions[a].target != actions[b].target);
        } else {
            assert(actions[b].target != actions[a].target);
        }
    }
    if all_justified(ctx, actions) {
        assert forall|i: int| 0 <= i < sorted.len() implies justified(ctx, #[trigger] sorted[i]) by {
            assert(actions.contains(sorted[i]));
            let a = choose|a: int| 0 <= a < actions.len() && actions[a] == sorted[i];
            assert(justified(ctx, actions[a]));
        }
    }
    if fresh_targets(ctx.entries, actions) {
        assert forall|i: int| 0 <= i < sorted.len() implies !listed(
            ctx.entries,
            (#[trigger] sorted[i]).target,
        ) by {
            assert(actions.contains(sorted[i]));
            let a = choose|a: int| 0 <= a < actions.len() && actions[a] == sorted[i];
            assert(!listed(ctx.entries, actions[a].target));
        }
    }
}

/// In every plan no two actions have one target, and no target is a path
/// that the scan lists; each action moves a listed file of a covered
/// category to where the rules put it.
pub proof fn lemma_plan_overwrites_nothing(ctx: PlanContext)
    requires
        planned(ctx) is Some,
    ensures
        distinct_targets(sorted_actions(planned(ctx)->0.actions)),
        fresh_targets(ctx.entries, sorted_actions(planned(ctx)->0.actions)),
        all_justified(ctx, sorted_actions(planned(ctx)->0.actions)),
{
    lemma_planned_sound(ctx);
    lemma_sorted_keeps(ctx, planned(ctx)->0.actions);
}

/// Some action moves the file at `path`.
pub open spec fn moves(actions: Seq<ActionView>, path: Seq<char>) -> bool {
    exists|i: int| 0 <= i < actions.len() && (#[trigger] actions[i]).source == path
}

/// `longer` begins with the actions of `shorter`.
pub open spec fn extends(shorter: Seq<ActionView>, longer: Seq<ActionView>) -> bool {
    &&& shorter.len() <= longer.len()
    &&& forall|i: int| 0 <= i < shorter.len() ==> #[trigger] longer[i] == shorter[i]
}

/// What a list of actions moves, a list that begins with it moves too.
pub proof fn lemma_extends_moves(shorter: Seq<ActionView>, longer: Seq<ActionView>, path: Seq<char>)
    requires
        extends(shorter, longer),
        moves(shorter, path),
    ensures
        moves(longer, path),
{
    let i = choose|i: int| 0 <= i < shorter.len() && (#[trigger] shorter[i]).source == path;
    assert(longer[i] == shorter[i]);
}

/// A sweep keeps the actions that were there and moves every file of its
/// list that does not stay.
pub proof fn lemma_sweep_moves(
    ctx: PlanContext,
    sweep: Sweep,
    state: SweepState,
    files: Seq<FileInfoView>,
)
    requires
        sweep_files(ctx, sweep, state, files) is Some,
    ensures
        extends(state.actions, sweep_files(ctx, sweep, state, files)->0.actions),
        forall|k: int|
            0 <= k < files.len() && !stays(ctx, sweep, #[trigger] files[k]) ==> moves(
                sweep_files(ctx, sweep, state, files)->0.actions,
                files[k].path,
            ),
    decreases files.len(),
{
    if files.len() > 0 {
        let front = files.drop_last();
        lemma_sweep_moves(ctx, sweep, state, front);
        let before = sweep_files(ctx, sweep, state, front)->0;
        let after = sweep_files(ctx, sweep, state, files)->0;
        let last = files.last();
        assert(extends(before.actions, after.actions));
        assert forall|k: int|
            0 <= k < files.len() && !stays(ctx, sweep, #[trigger] files[k]) implies moves(
            after.actions,
            files[k].path,
        ) by {
            if k < front.len() {
                assert(front[k] == files[k]);
                lemma_extends_moves(before.actions, after.actions, files[k].path);
            } else {
                assert(after.actions[before.actions.len() as int].source == last.path);
            }
        }
    }
}

/// A listed file that lies in `dir` is in the list of the files in `dir`.
pub proof fn lemma_in_files_in(entries: Seq<FileInfoView>, dir: Seq<char>, i: int) -> (k: int)
    requires
        0 <= i < entries.len(),
        !entries[i].is_dir,
        child_of(entries[i].path, dir),
    ensures
        0 <= k < files_in(entries, dir).len(),
        files_in(entries, dir)[k] == entries[i],
{
    let keep = |e: FileInfoView| !e.is_dir && child_of(e.path, dir);
    entries.lemma_filter_contains(keep, i);
    choose|k: int| 0 <= k < entries.filter(keep).len() && entries.filter(keep)[k] == entries[i]
}

/// A listed file that lies below `dir` is in the list of the files below
/// `dir`.
pub proof fn lemma_in_files_under(entries: Seq<FileInfoView>, dir: Seq<char>, i: int) -> (k: int)
    requires
        0 <= i < entries.len(),
        !entries[i].is_dir,
        under(entries[i].path, dir),
    ensures
        0 <= k < files_under(entries, dir).len(),
        files_under(entries, dir)[k] == entries[i],
{
    let keep = |e: FileInfoView| !e.is_dir && under(e.path, dir);
    entries.lemma_filter_contains(keep, i);
    choose|k: int| 0 <= k < entries.filter(keep).len() && entries.filter(keep)[k] == entries[i]
}

/// The sweeps of the categories' folders keep the actions that were there
/// and move every listed file directly in a covered category's folder that
/// does not stay.
pub proof fn lemma_category_folders_move(ctx: PlanContext, state: SweepState, count: nat)
    requires
        count <= 3,
        sweep_category_folders(ctx, state, count) is Some,
    ensures
        extends(state.actions, sweep_category_folders(ctx, state, count)->0.actions),
        forall|i: int, k: int|
            0 <= i < ctx.entries.len() && 0 <= k < count && !(#[trigger] ctx.entries[i]).is_dir
                && ctx.options.covers(record_types()[k]) && child_of(
                ctx.entries[i].path,
                category_root(ctx.root, #[trigger] record_types()[k]),
            ) && !stays(ctx, Sweep::Direct, ctx.entries[i]) ==> moves(
                sweep_category_folders(ctx, state, count)->0.actions,
                ctx.entries[i].path,
            ),
    decreases count,
{
    if count > 0 {
        lemma_category_folders_move(ctx, state, (count - 1) as nat);
        let before = sweep_category_folders(ctx, state, (count - 1) as nat)->0;
        let after = sweep_category_folders(ctx, state, count)->0;
        let category = record_types()[count - 1];
        let dir = category_root(ctx.root, category);
        if ctx.options.covers(category) {
            lemma_sweep_moves(ctx, Sweep::Direct, before, files_in(ctx.entries, dir));
        }
        assert(extends(before.actions, after.actions));
        assert forall|i: int, k: int|
            0 <= i < ctx.entries.len() && 0 <= k < count && !(#[trigger] ctx.entries[i]).is_dir
                && ctx.options.covers(record_types()[k]) && child_of(
                ctx.entries[i].path,
                category_root(ctx.root, #[trigger] record_types()[k]),
            ) && !stays(ctx, Sweep::Direct, ctx.entries[i]) implies moves(
            after.actions,
            ctx.entries[i].path,
        ) by {
            if k < count - 1 {
                lemma_extends_moves(before.actions, after.actions, ctx.entries[i].path);
            } else {
                let at = lemma_in_files_in(ctx.entries, dir, i);
            }
        }
    }
}

/// The sweeps below the categories' folders keep the actions that were
/// there and move every listed file below a covered category's folder that
/// does not stay.
pub proof fn lemma_category_trees_move(ctx: PlanContext, state: SweepState, count: nat)
    requires
        count <= 3,
        sweep_category_trees(ctx, state, count) is Some,
    ensures
        extends(state.actions, sweep_category_trees(ctx, state, count)->0.actions),
        forall|i: int, k: int|
            0 <= i < ctx.entries.len() && 0 <= k < count && !(#[trigger] ctx.entries[i]).is_dir
                && ctx.options.covers(record_types()[k]) && under(
                ctx.entries[i].path,
                category_root(ctx.root, #[trigger] record_types()[k]),
            ) && !stays(ctx, Sweep::Nested(record_types()[k]), ctx.entries[i]) ==> moves(
                sweep_category_trees(ctx, state, count)->0.actions,
                ctx.entries[i].path,
            ),
    decreases count,
{
    if count > 0 {
        lemma_category_trees_move(ctx, state, (count - 1) as nat);
        let before = sweep_category_trees(ctx, state, (count - 1) as nat)->0;
        let after = sweep_category_trees(ctx, state, count)->0;
        let category = record_types()[count - 1];
        let dir = category_root(ctx.root, category);
        if ctx.options.covers(category) {
            lemma_sweep_moves(ctx, Sweep::Nested(category), before, files_under(ctx.entries, dir));
        }
        assert(extends(before.actions, after.actions));
        assert forall|i: int, k: int|
            0 <= i < ctx.entries.len() && 0 <= k < count && !(#[trigger] ctx.entries[i]).is_dir
                && ctx.options.covers(record_types()[k]) && under(
                ctx.entries[i].path,
                category_root(ctx.root, #[trigger] record_types()[k]),
            ) && !stays(ctx, Sweep::Nested(record_types()[k]), ctx.entries[i]) implies moves(
            after.actions,
            ctx.entries[i].path,
        ) by {
            if k < count - 1 {
                lemma_extends_moves(before.actions, after.actions, ctx.entries[i].path);
            } else {
                let at = lemma_in_files_under(ctx.entries, dir, i);
            }
        }
    }
}

/// The sweeps below the stray folders keep the actions that were there and
/// move every listed file below a stray folder that does not stay.
pub proof fn lemma_stray_folders_move(ctx: PlanContext, state: SweepState, count: nat)
    requires
        count <= ctx.entries.len(),
        sweep_stray_folders(ctx, state, count) is Some,
    ensures
        extends(state.actions, sweep_stray_folders(ctx, state, count)->0.actions),
        forall|i: int, j: int|
            0 <= i < ctx.entries.len() && 0 <= j < count && !(#[trigger] ctx.entries[i]).is_dir
                && is_stray_folder(ctx.root, #[trigger] ctx.entries[j]) && under(
                ctx.entries[i].path,
                ctx.entries[j].path,
            ) && !stays(ctx, Sweep::Stray, ctx.entries[i]) ==> moves(
                sweep_stray_folders(ctx, state, count)->0.actions,
                ctx.entries[i].path,
            ),
    decreases count,
{
    if count > 0 {
        lemma_stray_folders_move(ctx, state, (count - 1) as nat);
        let before = sweep_stray_folders(ctx, state, (count - 1) as nat)->0;
        let after = sweep_stray_folders(ctx, state, count)->0;
        let entry = ctx.entries[count - 1];
        if is_stray_folder(ctx.root, entry) {
            lemma_sweep_moves(ctx, Sweep::Stray, before, files_under(ctx.entries, entry.path));
        }
        assert(extends(before.actions, after.actions));
        assert forall|i: int, j: int|
            0 <= i < ctx.entries.len() && 0 <= j < count && !(#[trigger] ctx.entries[i]).is_dir
                && is_stray_folder(ctx.root, #[trigger] ctx.entries[j]) && under(
                ctx.entries[i].path,
                ctx.entries[j].path,
            ) && !stays(ctx, Sweep::Stray, ctx.entries[i]) implies moves(
            after.actions,
            ctx.entries[i].path,
        ) by {
            if j < count - 1 {
                lemma_extends_moves(before.actions, after.actions, ctx.entries[i].path);
            } else {
                let at = lemma_in_files_under(ctx.entries, entry.path, i);
            }
        }
    }
}

} // verus!
