//! Applying a plan that was just made: the plan is accepted, and when a
//! move runs there is nothing at its target.

use vstd::prelude::*;
use crate::applier::{
    action_operations, apply_operations, first_conflict, folder_operations, move_operations,
    repeats_target, FsOperationView,
};
use crate::folder_laws::{lemma_wanted_folder, plain};
use crate::fs_model::{
    creates, lemma_moves_keep_unmoved, lemma_moves_place_files, lemma_run_concat,
    lemma_run_dirs_from, lemma_run_keeps_files, model_of, moved_file, no_moves, occupied, placed,
    run, sources_apart,
};
use crate::source_laws::{lemma_each_file_moved_once, listed_once};
use crate::idempotence::{lemma_creations_fit, lemma_sources_apart, tidy};
use crate::paths::{at_or_under, dir_prefix, joined, under};
use crate::plan_laws::{
    distinct_targets, fresh_targets, is_route, justified, lemma_plan_overwrites_nothing, moves,
};
use crate::planner::{plan_of, planned, wanted_folder, wanted_name, PlanContext};
use crate::record_manager::{ActionView, PlanView};
use crate::scanner::{listed, FileInfoView};
use crate::stability::{lemma_target_name, nameable};
use crate::target::numbered_name;

verus! {

/// A plan is accepted where it is applied to the scan that it was made
/// from.
pub proof fn lemma_apply_accepts_plan(ctx: PlanContext)
    requires
        plan_of(ctx) is Some,
    ensures
        first_conflict(plan_of(ctx)->0.actions, ctx.entries, plan_of(ctx)->0.actions.len()) is None,
{
    lemma_plan_overwrites_nothing(ctx);
    lemma_no_conflict(plan_of(ctx)->0.actions, ctx.entries, plan_of(ctx)->0.actions.len());
}

/// Actions with distinct targets that are not listed have no conflict.
pub proof fn lemma_no_conflict(actions: Seq<ActionView>, entries: Seq<FileInfoView>, count: nat)
    requires
        distinct_targets(actions),
        fresh_targets(entries, actions),
        count <= actions.len(),
    ensures
        first_conflict(actions, entries, count) is None,
    decreases count,
{
    if count > 0 {
        lemma_no_conflict(actions, entries, (count - 1) as nat);
        assert(!repeats_target(actions, count - 1));
        assert(!listed(entries, actions[count - 1].target));
    }
}

/// The operations that applying a plan has carried out when the move of
/// the action at `at` is about to run.
pub open spec fn operations_before_move(plan: PlanView, entries: Seq<FileInfoView>, at: int) -> Seq<
    FsOperationView,
> {
    folder_operations(plan.required_folders) + move_operations(entries, plan.actions.take(at))
        + action_operations(entries, plan.actions[at]).drop_last()
}

/// The moves of the first actions are the first of the moves of all.
pub proof fn lemma_move_operations_take(entries: Seq<FileInfoView>, actions: Seq<ActionView>, at: int)
    requires
        0 <= at <= actions.len(),
    ensures
        move_operations(entries, actions.take(at)).len() <= move_operations(entries, actions).len(),
        move_operations(entries, actions).take(
            move_operations(entries, actions.take(at)).len() as int,
        ) == move_operations(entries, actions.take(at)),
        at < actions.len() ==> move_operations(entries, actions.take(at + 1)) == move_operations(
            entries,
            actions.take(at),
        ) + action_operations(entries, actions[at]),
    decreases actions.len() - at,
{
    if at == actions.len() {
        assert(actions.take(at) =~= actions);
        assert(move_operations(entries, actions).take(move_operations(entries, actions).len() as int)
            =~= move_operations(entries, actions));
    } else {
        lemma_move_operations_take(entries, actions, at + 1);
        assert(actions.take(at + 1).drop_last() =~= actions.take(at));
        assert(actions.take(at + 1).last() == actions[at]);
        let shorter = move_operations(entries, actions.take(at));
        let longer = move_operations(entries, actions.take(at + 1));
        assert(longer == shorter + action_operations(entries, actions[at]));
        let all = move_operations(entries, actions);
        assert(all.take(shorter.len() as int) =~= all.take(longer.len() as int).take(
            shorter.len() as int,
        ));
        assert(longer.take(shorter.len() as int) =~= shorter);
    }
}

/// What has been carried out before a move is the beginning of the
/// operations that apply the plan, and the move comes next.
pub proof fn lemma_operations_before_move(plan: PlanView, entries: Seq<FileInfoView>, at: int)
    requires
        0 <= at < plan.actions.len(),
    ensures
        ({
            let before = operations_before_move(plan, entries, at);
            let all = apply_operations(plan, entries);
            &&& before.len() < all.len()
            &&& all.take(before.len() as int) == before
            &&& all[before.len() as int] == (FsOperationView::Rename {
                source: plan.actions[at].source,
                target: plan.actions[at].target,
            })
        }),
{
    let before = operations_before_move(plan, entries, at);
    let all = apply_operations(plan, entries);
    let folders = folder_operations(plan.required_folders);
    let moving = move_operations(entries, plan.actions);
    let done = move_operations(entries, plan.actions.take(at));
    let step = action_operations(entries, plan.actions[at]);
    lemma_move_operations_take(entries, plan.actions, at);
    lemma_move_operations_take(entries, plan.actions, at + 1);
    let next = move_operations(entries, plan.actions.take(at + 1));
    assert(next == done + step);
    assert(moving.take(next.len() as int) == next);
    assert(before.len() == folders.len() + done.len() + step.len() - 1);
    assert(all.take(before.len() as int) =~= before) by {
        assert forall|t: int| 0 <= t < before.len() implies all[t] == before[t] by {
            if t >= folders.len() {
                assert(all[t] == moving[t - folders.len()]);
                assert(moving.take(next.len() as int)[t - folders.len()] == next[t - folders.len()]);
            }
        }
    }
    assert(all[before.len() as int] == moving[before.len() - folders.len()]);
    assert(moving.take(next.len() as int)[next.len() - 1] == next[next.len() - 1]);
}

/// The target of a justified action has a `_` below the root: the one
/// after the stamp of its name.
pub proof fn lemma_target_mark(ctx: PlanContext, action: ActionView) -> (mark: int)
    requires
        tidy(ctx),
        justified(ctx, action),
    ensures
        dir_prefix(ctx.root).len() <= mark < action.target.len(),
        action.target[mark] == '_',
{
    let w = choose|w: int|
        0 <= w < ctx.entries.len() && is_route(ctx, #[trigger] ctx.entries[w], action);
    let file = ctx.entries[w];
    let folder = wanted_folder(ctx, file);
    let plain_name = wanted_name(file);
    let name = if action.target == joined(folder, plain_name) {
        plain_name
    } else {
        let index = choose|index: nat|
            2 <= index && action.target == joined(folder, #[trigger] numbered_name(plain_name, index));
        numbered_name(plain_name, index)
    };
    assert(action.target == joined(folder, name));
    assert(nameable(file));
    lemma_target_name(file, name);
    lemma_wanted_folder(ctx, file);
    lemma_name_mark(name, crate::classify::category_of(file.path).prefix());
    let inner = dir_prefix(folder).len() as int;
    assert(action.target[inner + 14] == name[14]);
    inner + 14
}

/// A canonical name has a `_` after its stamp.
pub proof fn lemma_name_mark(name: Seq<char>, prefix: Seq<char>)
    requires
        crate::naming::is_canonical_name(name, prefix),
    ensures
        name.len() > 14,
        name[14] == '_',
{
    crate::text::lemma_last_index(name, '.');
}

/// Nothing that is plain below the root is at the target of a justified
/// action or below it.
pub proof fn lemma_target_is_not_plain(ctx: PlanContext, action: ActionView, path: Seq<char>)
    requires
        tidy(ctx),
        justified(ctx, action),
        at_or_under(path, action.target),
    ensures
        !plain(ctx.root, path),
{
    let mark = lemma_target_mark(ctx, action);
    let start = dir_prefix(ctx.root).len() as int;
    assert(path[mark] == '_') by {
        if path != action.target {
            assert(dir_prefix(action.target)[mark] == action.target[mark]);
            assert(path[0 + mark] == dir_prefix(action.target)[mark]);
        }
    }
    if plain(ctx.root, path) {
        assert(path.skip(start)[mark - start] == path[mark]);
    }
}

/// The root is listed where a plan has an action.
pub proof fn lemma_root_listed(ctx: PlanContext)
    requires
        plan_of(ctx) is Some,
        plan_of(ctx)->0.actions.len() > 0,
    ensures
        listed(ctx.entries, ctx.root),
{
    if !listed(ctx.entries, ctx.root) {
        assert(planned(ctx)->0.actions.len() == 0);
        crate::sorting::lemma_sorted_actions(planned(ctx)->0.actions);
    }
}

/// When the move of an action is about to run, no directory is at its
/// target.
pub proof fn lemma_no_directory_at_target(ctx: PlanContext, at: int)
    requires
        tidy(ctx),
        plan_of(ctx) is Some,
        0 <= at < plan_of(ctx)->0.actions.len(),
    ensures
        !run(
            model_of(ctx.entries),
            operations_before_move(plan_of(ctx)->0, ctx.entries, at),
        ).dirs.contains(plan_of(ctx)->0.actions[at].target),
{
    let plan = plan_of(ctx)->0;
    let target = plan.actions[at].target;
    let start = model_of(ctx.entries);
    let before = operations_before_move(plan, ctx.entries, at);
    let reached = run(start, before);
    lemma_plan_overwrites_nothing(ctx);
    lemma_root_listed(ctx);
    assert(!listed(ctx.entries, target));
    if reached.dirs.contains(target) {
        lemma_run_dirs_from(start, before, target);
        if start.dirs.contains(target) {
            let e = choose|e: int|
                0 <= e < ctx.entries.len() && (#[trigger] ctx.entries[e]).path == target
                    && ctx.entries[e].is_dir;
            assert(listed(ctx.entries, target));
        } else {
            let created = choose|created: Seq<char>|
                #[trigger] creates(before, created) && (target == created || under(created, target));
            let k = choose|k: int|
                0 <= k < before.len() && #[trigger] before[k] == (FsOperationView::CreateDirAll {
                    path: created,
                });
            lemma_operations_before_move(plan, ctx.entries, at);
            let all = apply_operations(plan, ctx.entries);
            assert(all.take(before.len() as int)[k] == all[k]);
            assert(creates(all, created));
            lemma_creations_fit(ctx, created);
            assert(justified(ctx, plan.actions[at]));
            lemma_target_is_not_plain(ctx, plan.actions[at], created);
        }
    }
}

/// The files when the move of an action is about to run: those that the
/// moves of the actions before it have placed.
pub proof fn lemma_files_before_move(ctx: PlanContext, at: int)
    requires
        plan_of(ctx) is Some,
        0 <= at < plan_of(ctx)->0.actions.len(),
    ensures
        ({
            let reached = run(
                model_of(ctx.entries),
                operations_before_move(plan_of(ctx)->0, ctx.entries, at),
            );
            &&& reached.files.len() == model_of(ctx.entries).files.len()
            &&& forall|i: int|
                0 <= i < reached.files.len() ==> placed(
                    model_of(ctx.entries).files,
                    plan_of(ctx)->0.actions.take(at),
                    #[trigger] reached.files[i],
                )
        }),
{
    let plan = plan_of(ctx)->0;
    let actions = plan.actions;
    let start = model_of(ctx.entries);
    let folders = folder_operations(plan.required_folders);
    let done = move_operations(ctx.entries, actions.take(at));
    let creation = action_operations(ctx.entries, actions[at]).drop_last();
    lemma_run_concat(start, folders + done, creation);
    lemma_run_concat(start, folders, done);
    let prepared = run(start, folders);
    let moved = run(prepared, done);
    assert(no_moves(folders));
    lemma_run_keeps_files(start, folders);
    assert(no_moves(creation)) by {
        assert forall|k: int| 0 <= k < creation.len() implies !((#[trigger] creation[k]) is Rename) by {
            assert(creation[k] == action_operations(ctx.entries, actions[at])[k]);
        }
    }
    lemma_run_keeps_files(moved, creation);
    lemma_sources_apart(ctx);
    let first = actions.take(at);
    assert(sources_apart(first)) by {
        assert forall|a: int, b: int| 0 <= a < first.len() && 0 <= b < first.len() implies (
        #[trigger] first[a]).source != (#[trigger] first[b]).target by {
            assert(first[a] == actions[a]);
            assert(first[b] == actions[b]);
        }
    }
    lemma_moves_place_files(prepared, ctx.entries, first);
}

/// When the move of an action is about to run, no file is at its target.
pub proof fn lemma_no_file_at_target(ctx: PlanContext, at: int, i: int)
    requires
        plan_of(ctx) is Some,
        0 <= at < plan_of(ctx)->0.actions.len(),
        0 <= i < model_of(ctx.entries).files.len(),
    ensures
        run(
            model_of(ctx.entries),
            operations_before_move(plan_of(ctx)->0, ctx.entries, at),
        ).files[i].path != plan_of(ctx)->0.actions[at].target,
{
    let plan = plan_of(ctx)->0;
    let actions = plan.actions;
    let target = actions[at].target;
    let start = model_of(ctx.entries);
    let reached = run(start, operations_before_move(plan, ctx.entries, at));
    lemma_files_before_move(ctx, at);
    lemma_plan_overwrites_nothing(ctx);
    let first = actions.take(at);
    let file = reached.files[i];
    assert(placed(start.files, first, file));
    assert(!listed(ctx.entries, target));
    if file.path == target {
        let keep = |e: FileInfoView| !e.is_dir;
        if start.files.contains(file) {
            ctx.entries.lemma_filter_contains_rev(keep, file);
            let e = choose|e: int| 0 <= e < ctx.entries.len() && ctx.entries[e] == file;
            assert(listed(ctx.entries, target));
        } else {
            let (g, a) = choose|g: int, a: int|
                0 <= g < start.files.len() && 0 <= a < first.len() && (#[trigger] first[a]).source
                    == (#[trigger] start.files[g]).path && file == moved_file(
                    start.files[g],
                    first[a].target,
                );
            assert(first[a] == actions[a]);
            assert(actions[a].target != actions[at].target);
        }
    }
}

/// When the move of an action of a plan is about to run, there is nothing
/// at its target: no file and no directory.
pub proof fn lemma_target_free_when_moved(ctx: PlanContext, at: int)
    requires
        tidy(ctx),
        plan_of(ctx) is Some,
        0 <= at < plan_of(ctx)->0.actions.len(),
    ensures
        !occupied(
            run(model_of(ctx.entries), operations_before_move(plan_of(ctx)->0, ctx.entries, at)),
            plan_of(ctx)->0.actions[at].target,
        ),
{
    let reached = run(
        model_of(ctx.entries),
        operations_before_move(plan_of(ctx)->0, ctx.entries, at),
    );
    lemma_no_directory_at_target(ctx, at);
    lemma_files_before_move(ctx, at);
    assert forall|i: int| 0 <= i < reached.files.len() implies (#[trigger] reached.files[i]).path
        != plan_of(ctx)->0.actions[at].target by {
        lemma_no_file_at_target(ctx, at, i);
    }
}

/// A file that none of the actions before the one at `at` moves is, when
/// the move of that action is about to run, what it was.
pub proof fn lemma_file_kept_before_move(ctx: PlanContext, at: int, g: int)
    requires
        plan_of(ctx) is Some,
        0 <= at < plan_of(ctx)->0.actions.len(),
        0 <= g < model_of(ctx.entries).files.len(),
        !moves(plan_of(ctx)->0.actions.take(at), model_of(ctx.entries).files[g].path),
    ensures
        run(
            model_of(ctx.entries),
            operations_before_move(plan_of(ctx)->0, ctx.entries, at),
        ).files.len() == model_of(ctx.entries).files.len(),
        run(
            model_of(ctx.entries),
            operations_before_move(plan_of(ctx)->0, ctx.entries, at),
        ).files[g] == model_of(ctx.entries).files[g],
{
    let plan = plan_of(ctx)->0;
    let actions = plan.actions;
    let start = model_of(ctx.entries);
    let folders = folder_operations(plan.required_folders);
    let first = actions.take(at);
    let done = move_operations(ctx.entries, first);
    let creation = action_operations(ctx.entries, actions[at]).drop_last();
    lemma_run_concat(start, folders + done, creation);
    lemma_run_concat(start, folders, done);
    let prepared = run(start, folders);
    let moved = run(prepared, done);
    assert(no_moves(folders));
    lemma_run_keeps_files(start, folders);
    assert(no_moves(creation)) by {
        assert forall|k: int| 0 <= k < creation.len() implies !((#[trigger] creation[k]) is Rename) by {
            assert(creation[k] == action_operations(ctx.entries, actions[at])[k]);
        }
    }
    lemma_run_keeps_files(moved, creation);
    lemma_moves_keep_unmoved(prepared, ctx.entries, first, g);
}

/// The file that an action moves is among the files that the scan lists.
pub proof fn lemma_source_is_a_file(ctx: PlanContext, at: int) -> (g: int)
    requires
        plan_of(ctx) is Some,
        0 <= at < plan_of(ctx)->0.actions.len(),
    ensures
        0 <= g < model_of(ctx.entries).files.len(),
        model_of(ctx.entries).files[g].path == plan_of(ctx)->0.actions[at].source,
{
    let actions = plan_of(ctx)->0.actions;
    lemma_plan_overwrites_nothing(ctx);
    assert(justified(ctx, actions[at]));
    let w = choose|w: int|
        0 <= w < ctx.entries.len() && is_route(ctx, #[trigger] ctx.entries[w], actions[at]);
    let keep = |e: FileInfoView| !e.is_dir;
    ctx.entries.lemma_filter_contains(keep, w);
    let files = ctx.entries.filter(keep);
    choose|g: int| 0 <= g < files.len() && files[g] == ctx.entries[w]
}

/// When the move of an action of a plan is about to run, the file that it
/// moves is at its source.
pub proof fn lemma_source_there_when_moved(ctx: PlanContext, at: int)
    requires
        listed_once(ctx.entries),
        plan_of(ctx) is Some,
        0 <= at < plan_of(ctx)->0.actions.len(),
    ensures
        exists|i: int|
            0 <= i < run(
                model_of(ctx.entries),
                operations_before_move(plan_of(ctx)->0, ctx.entries, at),
            ).files.len() && (#[trigger] run(
                model_of(ctx.entries),
                operations_before_move(plan_of(ctx)->0, ctx.entries, at),
            ).files[i]).path == plan_of(ctx)->0.actions[at].source,
{
    let actions = plan_of(ctx)->0.actions;
    let source = actions[at].source;
    let first = actions.take(at);
    let g = lemma_source_is_a_file(ctx, at);
    lemma_each_file_moved_once(ctx);
    assert(!moves(first, source)) by {
        if moves(first, source) {
            let k = choose|k: int| 0 <= k < first.len() && (#[trigger] first[k]).source == source;
            assert(first[k] == actions[k]);
            assert(actions[k].source != actions[at].source);
        }
    }
    lemma_file_kept_before_move(ctx, at, g);
    let reached = run(
        model_of(ctx.entries),
        operations_before_move(plan_of(ctx)->0, ctx.entries, at),
    );
    assert(reached.files[g].path == source);
}

/// Applying a plan loses no file: after its operations there are as many
/// files as before, each of them a file that was there and that no action
/// moves, or a file that was at the source of an action and is at its
/// target now.
pub proof fn lemma_apply_loses_nothing(ctx: PlanContext)
    requires
        plan_of(ctx) is Some,
    ensures
        run(
            model_of(ctx.entries),
            apply_operations(plan_of(ctx)->0, ctx.entries),
        ).files.len() == model_of(ctx.entries).files.len(),
        forall|i: int|
            0 <= i < model_of(ctx.entries).files.len() ==> placed(
                model_of(ctx.entries).files,
                plan_of(ctx)->0.actions,
                #[trigger] run(
                    model_of(ctx.entries),
                    apply_operations(plan_of(ctx)->0, ctx.entries),
                ).files[i],
            ),
{
    let plan = plan_of(ctx)->0;
    let start = model_of(ctx.entries);
    let creations = folder_operations(plan.required_folders);
    lemma_run_concat(start, creations, move_operations(ctx.entries, plan.actions));
    assert(no_moves(creations));
    lemma_run_keeps_files(start, creations);
    lemma_sources_apart(ctx);
    lemma_moves_place_files(run(start, creations), ctx.entries, plan.actions);
}

} // verus!
