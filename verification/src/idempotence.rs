//! Planning again after a plan has been applied finds nothing to do.

use vstd::prelude::*;
use crate::applier::{
    apply_operations, cleanup_operations, folder_operations, lists_directory, move_operations,
    FsOperationView,
};
use crate::classify::category_of;
use crate::folder_laws::{fits, lemma_planned_folders_fit, lemma_target_parent};
use crate::fs_model::{
    creates, lemma_apply_operations_shape, lemma_cleanup_shape, lemma_moves_place_files,
    lemma_run_concat, lemma_run_creates, lemma_run_dirs_from, lemma_run_dirs_stay,
    lemma_run_keeps_files, model_of, moved_file, no_moves, placed, removes, run, scan_of,
    sources_apart,
};
use crate::paths::{
    at_or_under, child_of, file_name_of, lemma_file_name_joined, lemma_joined_child,
    lemma_same_top_folder, lemma_under_transitive, parent_of, under,
};

use crate::record_manager::{is_standard_folder, lemma_folder_facts};
use crate::settled::{empty_plan, lemma_settled_plan_is_empty};
use crate::plan_laws::{
    is_route, justified, lemma_category_folders_move, lemma_category_trees_move,
    lemma_extends_moves, lemma_in_files_in, lemma_plan_overwrites_nothing, lemma_sorted_keeps,
    lemma_planned_sound, lemma_stray_folders_move, lemma_sweep_moves, moves,
};
use crate::planner::{
    category_root, direct_sweeps, is_stray_folder, misplaced, plan_of, planned, stays,
    sweep_category_trees, sweep_files, PlanContext, Sweep, SweepState,
};
use crate::record_manager::{record_types, ActionView, RecordType};
use crate::scanner::{files_in, listed, FileInfoView};
use crate::settled::{rests, settled};
use crate::stability::{lemma_target_settles, nameable};

verus! {

/// The scan is one that a scan of a folder can be: no path is listed
/// twice; names, extensions and dates are those of the paths and of the
/// calendar; where the root or something below it is listed, the root is
/// listed as a directory; and every file of a covered category can be given
/// a canonical name.
pub open spec fn tidy(ctx: PlanContext) -> bool {
    &&& forall|i: int, j: int|
        0 <= i < j < ctx.entries.len() ==> (#[trigger] ctx.entries[i]).path != (
        #[trigger] ctx.entries[j]).path
    &&& forall|i: int|
        0 <= i < ctx.entries.len() ==> (#[trigger] ctx.entries[i]).consistent()
            && ctx.entries[i].modified.valid()
    &&& forall|i: int|
        0 <= i < ctx.entries.len() && ((#[trigger] ctx.entries[i]).path == ctx.root || under(
            ctx.entries[i].path,
            ctx.root,
        )) ==> lists_directory(ctx.entries, ctx.root)
    &&& forall|i: int|
        0 <= i < ctx.entries.len() && !(#[trigger] ctx.entries[i]).is_dir && ctx.options.covers(
            category_of(ctx.entries[i].path),
        ) ==> nameable(ctx.entries[i])
}

/// The same run on another scan.
pub open spec fn with_entries(ctx: PlanContext, entries: Seq<FileInfoView>) -> PlanContext {
    PlanContext {
        root: ctx.root,
        options: ctx.options,
        entries,
        current_year: ctx.current_year,
    }
}

/// An action of the second list is an action of the whole.
pub proof fn lemma_moves_in_second(first: Seq<ActionView>, second: Seq<ActionView>, path: Seq<char>)
    requires
        moves(second, path),
    ensures
        moves(first + second, path),
{
    let i = choose|i: int| 0 <= i < second.len() && (#[trigger] second[i]).source == path;
    assert((first + second)[first.len() + i] == second[i]);
}

/// A listed file that no action of the plan moves rests.
pub proof fn lemma_unmoved_rests(ctx: PlanContext, i: int)
    requires
        planned(ctx) is Some,
        listed(ctx.entries, ctx.root),
        0 <= i < ctx.entries.len(),
        !ctx.entries[i].is_dir,
        !moves(planned(ctx)->0.actions, ctx.entries[i].path),
    ensures
        rests(ctx, ctx.entries[i]),
{
    let file = ctx.entries[i];
    let plan = planned(ctx)->0;
    let none = Seq::<Seq<char>>::empty();
    let start = SweepState { folders: none, actions: Seq::<ActionView>::empty(), planned: none };
    let root_files = files_in(ctx.entries, ctx.root);
    let after_root = sweep_files(ctx, Sweep::Direct, start, root_files)->0;
    let direct = direct_sweeps(ctx)->0;
    lemma_sweep_moves(ctx, Sweep::Direct, start, root_files);
    lemma_category_folders_move(ctx, after_root, 3);
    assert(crate::plan_laws::extends(direct.actions, plan.actions)) by {
        if ctx.options.check_misplaced {
            let moved = misplaced(ctx, direct.planned)->0;
            assert(plan.actions == direct.actions + moved.actions);
        }
    }
    if child_of(file.path, ctx.root) && !stays(ctx, Sweep::Direct, file) {
        let k = lemma_in_files_in(ctx.entries, ctx.root, i);
        assert(moves(after_root.actions, file.path));
        lemma_extends_moves(after_root.actions, direct.actions, file.path);
        lemma_extends_moves(direct.actions, plan.actions, file.path);
    }
    assert forall|category: RecordType|
        ctx.options.covers(category) && child_of(
            file.path,
            #[trigger] category_root(ctx.root, category),
        ) implies stays(ctx, Sweep::Direct, file) by {
        if !stays(ctx, Sweep::Direct, file) {
            let k = match category {
                RecordType::ScreenCapture => 0int,
                RecordType::ScreenRecord => 1int,
                RecordType::VoiceRecord => 2int,
            };
            assert(record_types()[k] == category);
            assert(moves(direct.actions, file.path));
            lemma_extends_moves(direct.actions, plan.actions, file.path);
        }
    }
    if ctx.options.check_misplaced {
        let begin = SweepState {
            folders: none,
            actions: Seq::<ActionView>::empty(),
            planned: direct.planned,
        };
        let middle = sweep_category_trees(ctx, begin, 3)->0;
        let moved = misplaced(ctx, direct.planned)->0;
        lemma_category_trees_move(ctx, begin, 3);
        lemma_stray_folders_move(ctx, middle, ctx.entries.len());
        assert forall|category: RecordType|
            ctx.options.covers(category) && under(
                file.path,
                #[trigger] category_root(ctx.root, category),
            ) implies stays(ctx, Sweep::Nested(category), file) by {
            if !stays(ctx, Sweep::Nested(category), file) {
                let k = match category {
                    RecordType::ScreenCapture => 0int,
                    RecordType::ScreenRecord => 1int,
                    RecordType::VoiceRecord => 2int,
                };
                assert(record_types()[k] == category);
                assert(moves(middle.actions, file.path));
                lemma_extends_moves(middle.actions, moved.actions, file.path);
                lemma_moves_in_second(direct.actions, moved.actions, file.path);
            }
        }
        assert forall|j: int|
            0 <= j < ctx.entries.len() && is_stray_folder(ctx.root, #[trigger] ctx.entries[j])
                && under(file.path, ctx.entries[j].path) implies stays(ctx, Sweep::Stray, file) by {
            if !stays(ctx, Sweep::Stray, file) {
                assert(moves(moved.actions, file.path));
                lemma_moves_in_second(direct.actions, moved.actions, file.path);
            }
        }
    }
}

/// Every stray folder that `entries` lists has the path of a stray folder
/// that `before` lists.
pub open spec fn no_new_strays(root: Seq<char>, before: Seq<FileInfoView>, entries: Seq<FileInfoView>) -> bool {
    forall|j: int|
        0 <= j < entries.len() && is_stray_folder(root, #[trigger] entries[j]) ==> exists|k: int|
            0 <= k < before.len() && is_stray_folder(root, #[trigger] before[k]) && before[k].path
                == entries[j].path
}

/// Every file that `entries` lists is placed: left alone by the plan, or
/// moved by one of its actions.
pub open spec fn all_placed(ctx: PlanContext, entries: Seq<FileInfoView>) -> bool {
    forall|i: int|
        0 <= i < entries.len() && !(#[trigger] entries[i]).is_dir ==> placed(
            ctx.entries.filter(|e: FileInfoView| !e.is_dir),
            plan_of(ctx)->0.actions,
            entries[i],
        )
}

/// Whether a file stays does not depend on what else the scan lists.
pub proof fn lemma_stays_same(
    ctx: PlanContext,
    entries: Seq<FileInfoView>,
    sweep: Sweep,
    file: FileInfoView,
)
    ensures
        stays(with_entries(ctx, entries), sweep, file) == stays(ctx, sweep, file),
{
}

/// A file that lies where it is to lie rests.
pub proof fn lemma_in_place_rests(ctx: PlanContext, file: FileInfoView)
    requires
        crate::paths::joined(
            crate::planner::wanted_folder(ctx, file),
            crate::planner::wanted_name(file),
        ) == file.path,
    ensures
        rests(ctx, file),
{
    assert(stays(ctx, Sweep::Direct, file));
    assert(stays(ctx, Sweep::Stray, file));
    assert forall|category: RecordType| stays(ctx, Sweep::Nested(category), file) by {}
}

/// A file that rests in one scan rests in another that has no new stray
/// folder.
pub proof fn lemma_rests_after(ctx: PlanContext, entries: Seq<FileInfoView>, file: FileInfoView)
    requires
        rests(ctx, file),
        no_new_strays(ctx.root, ctx.entries, entries),
    ensures
        rests(with_entries(ctx, entries), file),
{
    let next = with_entries(ctx, entries);
    lemma_stays_same(ctx, entries, Sweep::Direct, file);
    lemma_stays_same(ctx, entries, Sweep::Stray, file);
    assert forall|category: RecordType|
        stays(next, Sweep::Nested(category), file) == stays(ctx, Sweep::Nested(category), file) by {
        lemma_stays_same(ctx, entries, Sweep::Nested(category), file);
    }
    assert forall|j: int|
        0 <= j < entries.len() && is_stray_folder(next.root, #[trigger] next.entries[j]) && under(
            file.path,
            next.entries[j].path,
        ) && ctx.options.check_misplaced implies stays(next, Sweep::Stray, file) by {
        let k = choose|k: int|
            0 <= k < ctx.entries.len() && is_stray_folder(ctx.root, #[trigger] ctx.entries[k])
                && ctx.entries[k].path == entries[j].path;
        assert(under(file.path, ctx.entries[k].path));
    }
}

/// An action of the plan in order is an action of the plan as it was
/// decided.
pub proof fn lemma_unmoved_before_sorting(ctx: PlanContext, path: Seq<char>)
    requires
        planned(ctx) is Some,
        !moves(plan_of(ctx)->0.actions, path),
    ensures
        !moves(planned(ctx)->0.actions, path),
{
    let decided = planned(ctx)->0.actions;
    let actions = plan_of(ctx)->0.actions;
    lemma_planned_sound(ctx);
    lemma_sorted_keeps(ctx, decided);
    if moves(decided, path) {
        let k = choose|k: int| 0 <= k < decided.len() && (#[trigger] decided[k]).source == path;
        assert(actions.contains(decided[k]));
        let m = choose|m: int| 0 <= m < actions.len() && actions[m] == decided[k];
        assert(actions[m].source == path);
    }
}

/// A file that an action of the plan has moved rests.
pub proof fn lemma_moved_rests(ctx: PlanContext, at: int, a: int)
    requires
        tidy(ctx),
        plan_of(ctx) is Some,
        0 <= at < ctx.entries.len(),
        !ctx.entries[at].is_dir,
        0 <= a < plan_of(ctx)->0.actions.len(),
        plan_of(ctx)->0.actions[a].source == ctx.entries[at].path,
    ensures
        rests(ctx, moved_file(ctx.entries[at], plan_of(ctx)->0.actions[a].target)),
{
    let actions = plan_of(ctx)->0.actions;
    lemma_plan_overwrites_nothing(ctx);
    assert(justified(ctx, actions[a]));
    let w = choose|w: int|
        0 <= w < ctx.entries.len() && is_route(ctx, #[trigger] ctx.entries[w], actions[a]);
    assert(ctx.entries[w].path == ctx.entries[at].path);
    assert(w == at) by {
        if w < at {
            assert(ctx.entries[w].path != ctx.entries[at].path);
        }
        if at < w {
            assert(ctx.entries[at].path != ctx.entries[w].path);
        }
    }
    lemma_target_settles(ctx, ctx.entries[at], actions[a].target);
    lemma_in_place_rests(ctx, moved_file(ctx.entries[at], actions[a].target));
}

/// A scan that lists the root, only placed files and no new stray folder
/// is the scan of a settled folder.
pub proof fn lemma_settles(ctx: PlanContext, entries: Seq<FileInfoView>)
    requires
        tidy(ctx),
        plan_of(ctx) is Some,
        listed(ctx.entries, ctx.root),
        listed(entries, ctx.root),
        all_placed(ctx, entries),
        no_new_strays(ctx.root, ctx.entries, entries),
    ensures
        settled(with_entries(ctx, entries)),
{
    let next = with_entries(ctx, entries);
    let keep = |e: FileInfoView| !e.is_dir;
    let files = ctx.entries.filter(keep);
    let actions = plan_of(ctx)->0.actions;
    assert forall|i: int| 0 <= i < entries.len() && !(#[trigger] entries[i]).is_dir implies rests(
        next,
        entries[i],
    ) by {
        let file = entries[i];
        assert(placed(files, actions, file));
        if files.contains(file) && !moves(actions, file.path) {
            ctx.entries.lemma_filter_contains_rev(keep, file);
            let at = choose|at: int| 0 <= at < ctx.entries.len() && ctx.entries[at] == file;
            lemma_unmoved_before_sorting(ctx, file.path);
            lemma_unmoved_rests(ctx, at);
            lemma_rests_after(ctx, entries, file);
        } else {
            let (g, a) = choose|g: int, a: int|
                0 <= g < files.len() && 0 <= a < actions.len() && (#[trigger] actions[a]).source
                    == (#[trigger] files[g]).path && file == moved_file(
                    files[g],
                    actions[a].target,
                );
            let origin = files[g];
            assert(files.contains(origin));
            ctx.entries.lemma_filter_contains_rev(keep, origin);
            ctx.entries.lemma_filter_pred(keep, g);
            let at = choose|at: int| 0 <= at < ctx.entries.len() && ctx.entries[at] == origin;
            lemma_moved_rests(ctx, at, a);
            lemma_rests_after(ctx, entries, file);
        }
    }
}

/// The folder of a category lies directly in the root and has the name of
/// the category's folder.
pub proof fn lemma_category_root(root: Seq<char>, category: RecordType)
    ensures
        child_of(category_root(root, category), root),
        under(category_root(root, category), root),
        file_name_of(category_root(root, category)) == category.folder(),
        is_standard_folder(category.folder()),
{
    lemma_folder_facts(category);
    let folder = category.folder();
    assert(crate::text::lacks(folder, '/')) by {
        assert forall|i: int| 0 <= i < folder.len() implies #[trigger] folder[i] != '/' by {
            let c = folder[i];
            assert(c == ' ' || ('a' <= c && c <= 'z'));
        }
    }
    lemma_joined_child(root, folder);
    lemma_file_name_joined(root, folder);
}

/// A file that does not lie below the root rests.
pub proof fn lemma_outside_rests(ctx: PlanContext, file: FileInfoView)
    requires
        !under(file.path, ctx.root),
    ensures
        rests(ctx, file),
{
    assert forall|category: RecordType|
        !under(file.path, #[trigger] category_root(ctx.root, category)) by {
        lemma_category_root(ctx.root, category);
        if under(file.path, category_root(ctx.root, category)) {
            lemma_under_transitive(file.path, category_root(ctx.root, category), ctx.root);
        }
    }
    assert forall|j: int|
        0 <= j < ctx.entries.len() && is_stray_folder(ctx.root, #[trigger] ctx.entries[j])
            implies !under(file.path, ctx.entries[j].path) by {
        if under(file.path, ctx.entries[j].path) {
            lemma_under_transitive(file.path, ctx.entries[j].path, ctx.root);
        }
    }
}

/// The moves of a plan do not touch each other: no source is a target.
pub proof fn lemma_sources_apart(ctx: PlanContext)
    requires
        plan_of(ctx) is Some,
    ensures
        sources_apart(plan_of(ctx)->0.actions),
{
    let actions = plan_of(ctx)->0.actions;
    lemma_plan_overwrites_nothing(ctx);
    assert forall|a: int, b: int| 0 <= a < actions.len() && 0 <= b < actions.len() implies (
    #[trigger] actions[a]).source != (#[trigger] actions[b]).target by {
        assert(justified(ctx, actions[a]));
        let w = choose|w: int|
            0 <= w < ctx.entries.len() && is_route(ctx, #[trigger] ctx.entries[w], actions[a]);
        assert(listed(ctx.entries, actions[a].source));
        assert(!listed(ctx.entries, actions[b].target));
    }
}

/// The operations that apply a plan move nothing before the moves of the
/// actions, and after them every file is placed.
pub proof fn lemma_placed_after_apply(ctx: PlanContext, entries: Seq<FileInfoView>)
    requires
        plan_of(ctx) is Some,
        scan_of(
            entries,
            run(model_of(ctx.entries), apply_operations(plan_of(ctx)->0, ctx.entries)),
            ctx.root,
        ),
    ensures
        all_placed(ctx, entries),
{
    let plan = plan_of(ctx)->0;
    let start = model_of(ctx.entries);
    let creations = folder_operations(plan.required_folders);
    let moving = move_operations(ctx.entries, plan.actions);
    lemma_run_concat(start, creations, moving);
    let prepared = run(start, creations);
    assert(no_moves(creations));
    lemma_run_keeps_files(start, creations);
    lemma_sources_apart(ctx);
    lemma_moves_place_files(prepared, ctx.entries, plan.actions);
    let done = run(prepared, moving);
    assert forall|i: int| 0 <= i < entries.len() && !(#[trigger] entries[i]).is_dir implies placed(
        ctx.entries.filter(|e: FileInfoView| !e.is_dir),
        plan.actions,
        entries[i],
    ) by {
        assert(done.files.contains(entries[i]));
        let k = choose|k: int| 0 <= k < done.files.len() && done.files[k] == entries[i];
        assert(placed(prepared.files, plan.actions, done.files[k]));
    }
}

/// No operation that applies a plan removes a directory.
pub proof fn lemma_apply_removes_nothing(ctx: PlanContext, path: Seq<char>)
    requires
        plan_of(ctx) is Some,
    ensures
        !removes(apply_operations(plan_of(ctx)->0, ctx.entries), path),
{
    let ops = apply_operations(plan_of(ctx)->0, ctx.entries);
    if removes(ops, path) {
        let k = choose|k: int|
            0 <= k < ops.len() && #[trigger] ops[k] == (FsOperationView::RemoveDir { path });
        lemma_apply_operations_shape(plan_of(ctx)->0, ctx.entries, k);
    }
}

/// Every directory that applying a plan creates is the folder of a
/// category or lies below one, where the root is listed.
pub proof fn lemma_creations_fit(ctx: PlanContext, path: Seq<char>)
    requires
        tidy(ctx),
        plan_of(ctx) is Some,
        listed(ctx.entries, ctx.root),
        creates(apply_operations(plan_of(ctx)->0, ctx.entries), path),
    ensures
        fits(ctx.root, path),
{
    let plan = plan_of(ctx)->0;
    let ops = apply_operations(plan, ctx.entries);
    let k = choose|k: int|
        0 <= k < ops.len() && #[trigger] ops[k] == (FsOperationView::CreateDirAll { path });
    lemma_apply_operations_shape(plan, ctx.entries, k);
    lemma_planned_folders_fit(ctx);
    lemma_plan_overwrites_nothing(ctx);
    if plan.required_folders.contains(path) {
        let i = choose|i: int|
            0 <= i < plan.required_folders.len() && plan.required_folders[i] == path;
        assert(fits(ctx.root, planned(ctx)->0.required_folders[i]));
    } else {
        let a = choose|a: int|
            0 <= a < plan.actions.len() && parent_of((#[trigger] plan.actions[a]).target) == Some(
                path,
            );
        assert(justified(ctx, plan.actions[a]));
        lemma_target_parent(ctx, plan.actions[a]);
    }
}

/// Applying a plan makes no stray folder.
pub proof fn lemma_no_new_strays_after_apply(ctx: PlanContext, entries: Seq<FileInfoView>)
    requires
        tidy(ctx),
        plan_of(ctx) is Some,
        listed(ctx.entries, ctx.root),
        scan_of(
            entries,
            run(model_of(ctx.entries), apply_operations(plan_of(ctx)->0, ctx.entries)),
            ctx.root,
        ),
    ensures
        no_new_strays(ctx.root, ctx.entries, entries),
{
    let start = model_of(ctx.entries);
    let ops = apply_operations(plan_of(ctx)->0, ctx.entries);
    assert forall|j: int|
        0 <= j < entries.len() && is_stray_folder(ctx.root, #[trigger] entries[j]) implies exists|
        k: int,
    |
        0 <= k < ctx.entries.len() && is_stray_folder(ctx.root, #[trigger] ctx.entries[k])
            && ctx.entries[k].path == entries[j].path by {
        let folder = entries[j];
        lemma_run_dirs_from(start, ops, folder.path);
        if start.dirs.contains(folder.path) {
            let k = choose|k: int|
                0 <= k < ctx.entries.len() && (#[trigger] ctx.entries[k]).path == folder.path
                    && ctx.entries[k].is_dir;
            assert(ctx.entries[k].consistent());
            assert(is_stray_folder(ctx.root, ctx.entries[k]));
        } else {
            let created = choose|created: Seq<char>|
                #[trigger] creates(ops, created) && (folder.path == created || under(
                    created,
                    folder.path,
                ));
            lemma_creations_fit(ctx, created);
            let category = choose|category: RecordType|
                at_or_under(created, #[trigger] category_root(ctx.root, category));
            lemma_category_root(ctx.root, category);
            lemma_same_top_folder(
                ctx.root,
                folder.path,
                category_root(ctx.root, category),
                created,
            );
            assert(false);
        }
    }
}

/// The root is listed after a plan has been applied.
pub proof fn lemma_root_after_apply(ctx: PlanContext, entries: Seq<FileInfoView>)
    requires
        tidy(ctx),
        plan_of(ctx) is Some,
        scan_of(
            entries,
            run(model_of(ctx.entries), apply_operations(plan_of(ctx)->0, ctx.entries)),
            ctx.root,
        ),
    ensures
        lists_directory(entries, ctx.root),
{
    let start = model_of(ctx.entries);
    let plan = plan_of(ctx)->0;
    let ops = apply_operations(plan, ctx.entries);
    lemma_apply_removes_nothing(ctx, ctx.root);
    if listed(ctx.entries, ctx.root) {
        let i = choose|i: int|
            0 <= i < ctx.entries.len() && (#[trigger] ctx.entries[i]).path == ctx.root;
        assert(lists_directory(ctx.entries, ctx.root));
        lemma_run_dirs_stay(start, ops, ctx.root);
    } else {
        assert(plan.required_folders =~= seq![ctx.root]);
        assert(ops[0] == (FsOperationView::CreateDirAll { path: ctx.root }));
        assert(creates(ops, ctx.root));
        lemma_run_creates(start, ops, ctx.root);
    }
}

/// After a plan has been applied the folder is settled.
pub proof fn lemma_settled_after_apply(ctx: PlanContext, entries: Seq<FileInfoView>)
    requires
        tidy(ctx),
        plan_of(ctx) is Some,
        scan_of(
            entries,
            run(model_of(ctx.entries), apply_operations(plan_of(ctx)->0, ctx.entries)),
            ctx.root,
        ),
    ensures
        settled(with_entries(ctx, entries)),
{
    lemma_root_after_apply(ctx, entries);
    let i = choose|i: int|
        0 <= i < entries.len() && (#[trigger] entries[i]).path == ctx.root && entries[i].is_dir;
    assert(listed(entries, ctx.root));
    lemma_placed_after_apply(ctx, entries);
    if listed(ctx.entries, ctx.root) {
        lemma_no_new_strays_after_apply(ctx, entries);
        lemma_settles(ctx, entries);
    } else {
        let next = with_entries(ctx, entries);
        let keep = |e: FileInfoView| !e.is_dir;
        let files = ctx.entries.filter(keep);
        let actions = plan_of(ctx)->0.actions;
        assert(actions.len() == 0) by {
            assert(planned(ctx)->0.actions.len() == 0);
            crate::sorting::lemma_sorted_actions(planned(ctx)->0.actions);
        }
        assert forall|k: int| 0 <= k < entries.len() && !(#[trigger] entries[k]).is_dir implies rests(
            next,
            entries[k],
        ) by {
            let file = entries[k];
            assert(placed(files, actions, file));
            assert(files.contains(file));
            ctx.entries.lemma_filter_contains_rev(keep, file);
            let at = choose|at: int| 0 <= at < ctx.entries.len() && ctx.entries[at] == file;
            if under(file.path, ctx.root) {
                assert(lists_directory(ctx.entries, ctx.root));
                let r = choose|r: int|
                    0 <= r < ctx.entries.len() && (#[trigger] ctx.entries[r]).path == ctx.root
                        && ctx.entries[r].is_dir;
                assert(listed(ctx.entries, ctx.root));
            }
            lemma_outside_rests(next, file);
        }
    }
}

/// What a scan after the tidying up lists was listed before the tidying
/// up, and the root is still listed; so a settled folder stays settled.
pub proof fn lemma_settled_after_cleanup(
    ctx: PlanContext,
    middle: Seq<FileInfoView>,
    after: Seq<FileInfoView>,
)
    requires
        settled(with_entries(ctx, middle)),
        lists_directory(middle, ctx.root),
        forall|i: int|
            0 <= i < middle.len() && (#[trigger] middle[i]).is_dir ==> middle[i].name
                == file_name_of(middle[i].path),
        scan_of(
            after,
            run(model_of(middle), cleanup_operations(ctx.root, middle, middle.len())),
            ctx.root,
        ),
    ensures
        settled(with_entries(ctx, after)),
{
    let then = with_entries(ctx, middle);
    let next = with_entries(ctx, after);
    let start = model_of(middle);
    let ops = cleanup_operations(ctx.root, middle, middle.len());
    let done = run(start, ops);
    assert(no_moves(ops)) by {
        assert forall|k: int| 0 <= k < ops.len() implies !((#[trigger] ops[k]) is Rename) by {
            lemma_cleanup_shape(ctx.root, middle, middle.len(), k);
        }
    }
    lemma_run_keeps_files(start, ops);
    assert(!removes(ops, ctx.root)) by {
        if removes(ops, ctx.root) {
            let k = choose|k: int|
                0 <= k < ops.len() && #[trigger] ops[k] == (FsOperationView::RemoveDir {
                    path: ctx.root,
                });
            lemma_cleanup_shape(ctx.root, middle, middle.len(), k);
            let j = choose|j: int|
                0 <= j < middle.len() && is_stray_folder(ctx.root, #[trigger] middle[j])
                    && at_or_under(ops[k]->RemoveDir_path, middle[j].path);
            if under(ctx.root, middle[j].path) {
                lemma_under_transitive(ctx.root, middle[j].path, ctx.root);
            }
        }
    }
    assert(start.dirs.contains(ctx.root));
    lemma_run_dirs_stay(start, ops, ctx.root);
    let r = choose|r: int|
        0 <= r < after.len() && (#[trigger] after[r]).path == ctx.root && after[r].is_dir;
    assert(listed(after, ctx.root));
    assert(no_new_strays(ctx.root, middle, after)) by {
        assert forall|j: int|
            0 <= j < after.len() && is_stray_folder(ctx.root, #[trigger] after[j]) implies exists|
            k: int,
        |
            0 <= k < middle.len() && is_stray_folder(ctx.root, #[trigger] middle[k])
                && middle[k].path == after[j].path by {
            lemma_run_dirs_from(start, ops, after[j].path);
            if !start.dirs.contains(after[j].path) {
                let created = choose|created: Seq<char>|
                    #[trigger] creates(ops, created) && (after[j].path == created || under(
                        created,
                        after[j].path,
                    ));
                let k = choose|k: int|
                    0 <= k < ops.len() && #[trigger] ops[k] == (FsOperationView::CreateDirAll {
                        path: created,
                    });
                lemma_cleanup_shape(ctx.root, middle, middle.len(), k);
            }
            let k = choose|k: int|
                0 <= k < middle.len() && (#[trigger] middle[k]).path == after[j].path
                    && middle[k].is_dir;
            assert(is_stray_folder(ctx.root, middle[k]));
        }
    }
    let keep = |e: FileInfoView| !e.is_dir;
    assert forall|i: int| 0 <= i < after.len() && !(#[trigger] after[i]).is_dir implies rests(
        next,
        after[i],
    ) by {
        assert(done.files.contains(after[i]));
        middle.lemma_filter_contains_rev(keep, after[i]);
        let at = choose|at: int| 0 <= at < middle.len() && middle[at] == after[i];
        assert(rests(then, middle[at]));
        lemma_rests_after(then, after, after[i]);
    }
}

/// Planning again finds nothing to do. Take a scan of a folder, the plan
/// made from it, a scan of the folder after the operations that apply the
/// plan, the removals that tidy up after them, and a scan of the folder
/// after those: the plan made from either of the later scans, for the same
/// root, options and year, is empty.
pub proof fn lemma_replanning_finds_nothing(
    ctx: PlanContext,
    middle: Seq<FileInfoView>,
    after: Seq<FileInfoView>,
)
    requires
        tidy(ctx),
        plan_of(ctx) is Some,
        scan_of(
            middle,
            run(model_of(ctx.entries), apply_operations(plan_of(ctx)->0, ctx.entries)),
            ctx.root,
        ),
        scan_of(
            after,
            run(model_of(middle), cleanup_operations(ctx.root, middle, middle.len())),
            ctx.root,
        ),
    ensures
        plan_of(with_entries(ctx, middle)) == Some(empty_plan(ctx.root)),
        plan_of(with_entries(ctx, after)) == Some(empty_plan(ctx.root)),
{
    lemma_settled_after_apply(ctx, middle);
    lemma_root_after_apply(ctx, middle);
    lemma_settled_after_cleanup(ctx, middle, after);
    lemma_settled_plan_is_empty(with_entries(ctx, middle));
    lemma_settled_plan_is_empty(with_entries(ctx, after));
}

} // verus!
