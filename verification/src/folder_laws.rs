//! Which folders a plan asks for: the folders of the categories and the
//! month folders below them, and nothing else below the root.

use vstd::prelude::*;
use crate::idempotence::tidy;
use crate::paths::{
    at_or_under, dir_prefix, joined, lemma_joined_under, lemma_parent_joined, parent_of,
};
use crate::plan_laws::{
    all_justified, is_route, justified, lemma_category_folders_keep, lemma_category_trees_keep,
    lemma_files_in_listed, lemma_stray_folders_keep, lemma_sweep_keeps, targets_of,
};
use crate::planner::{
    category_root, direct_sweeps, misplaced, planned, stays, sweep_category_folders,
    sweep_category_trees, sweep_files, visit, wanted_folder, wanted_name, with_missing,
    with_parents, PlanContext, Sweep, SweepState,
};
use crate::record_manager::{record_types, with_folder, ActionView, RecordType};
use crate::scanner::{files_in, listed, FileInfoView};
use crate::stability::{lemma_target_name, nameable};
use crate::target::numbered_name;
use crate::text::{int_text, lacks, lemma_decimal, lemma_digits_lack_signs};
use crate::timestamp::{month_text, two_digits};

verus! {

/// `path` begins as the paths below the root do and has no `_` after that.
pub open spec fn plain(root: Seq<char>, path: Seq<char>) -> bool {
    &&& crate::text::starts_with(path, dir_prefix(root))
    &&& lacks(path.skip(dir_prefix(root).len() as int), '_')
}

/// `path` is the folder of a category or lies below one, and has no `_`
/// below the root.
pub open spec fn fits(root: Seq<char>, path: Seq<char>) -> bool {
    &&& exists|category: RecordType| at_or_under(path, #[trigger] category_root(root, category))
    &&& plain(root, path)
}

/// Every folder is the folder of a category or lies below one.
pub open spec fn folders_fit(root: Seq<char>, folders: Seq<Seq<char>>) -> bool {
    forall|i: int| 0 <= i < folders.len() ==> fits(root, #[trigger] folders[i])
}

/// Noting a folder adds that folder and nothing else.
pub proof fn lemma_with_folder_elements(folders: Seq<Seq<char>>, folder: Seq<char>)
    ensures
        forall|i: int|
            0 <= i < with_folder(folders, folder).len() ==> (#[trigger] with_folder(
                folders,
                folder,
            )[i]) == folder || folders.contains(with_folder(folders, folder)[i]),
    decreases folders.len(),
{
    let result = with_folder(folders, folder);
    if folders.len() == 0 {
    } else if folders[0] == folder {
        assert forall|i: int| 0 <= i < result.len() implies (#[trigger] result[i]) == folder
            || folders.contains(result[i]) by {
            assert(folders[i] == result[i]);
        }
    } else if crate::text::lex_lt(folder, folders[0]) {
        assert forall|i: int| 0 <= i < result.len() implies (#[trigger] result[i]) == folder
            || folders.contains(result[i]) by {
            if i > 0 {
                assert(folders[i - 1] == result[i]);
            }
        }
    } else {
        let rest = folders.skip(1);
        lemma_with_folder_elements(rest, folder);
        let inner = with_folder(rest, folder);
        assert forall|i: int| 0 <= i < result.len() implies (#[trigger] result[i]) == folder
            || folders.contains(result[i]) by {
            if i == 0 {
                assert(folders[0] == result[0]);
            } else {
                assert(result[i] == inner[i - 1]);
                if inner[i - 1] != folder {
                    let k = choose|k: int| 0 <= k < rest.len() && rest[k] == inner[i - 1];
                    assert(folders[k + 1] == rest[k]);
                }
            }
        }
    }
}

/// Noting a folder that fits keeps the folders fitting.
pub proof fn lemma_with_missing_fit(
    root: Seq<char>,
    entries: Seq<FileInfoView>,
    folders: Seq<Seq<char>>,
    folder: Seq<char>,
)
    requires
        folders_fit(root, folders),
        fits(root, folder),
    ensures
        folders_fit(root, with_missing(entries, folders, folder)),
{
    lemma_with_folder_elements(folders, folder);
    let result = with_missing(entries, folders, folder);
    assert forall|i: int| 0 <= i < result.len() implies fits(root, #[trigger] result[i]) by {
        if result[i] != folder {
            let k = choose|k: int| 0 <= k < folders.len() && folders[k] == result[i];
            assert(fits(root, folders[k]));
        }
    }
}

/// The folder that a file is to lie in lies below the folder of its
/// category, is not empty and does not end with `/`.
pub proof fn lemma_wanted_folder(ctx: PlanContext, file: FileInfoView)
    requires
        file.modified.valid(),
    ensures
        fits(ctx.root, wanted_folder(ctx, file)),
        fits(ctx.root, category_root(ctx.root, crate::classify::category_of(file.path))),
        wanted_folder(ctx, file).len() > 0,
        wanted_folder(ctx, file).last() != '/',
{
    let category = crate::classify::category_of(file.path);
    let base = category_root(ctx.root, category);
    let month = month_text(file.modified);
    let inner = if file.modified.year < ctx.current_year {
        int_text(file.modified.year) + seq!['/'] + month
    } else {
        month
    };
    assert(month.last() == two_digits(file.modified.month)[1]);
    assert(inner.last() == month.last());
    lemma_joined_under(base, inner);
    assert(wanted_folder(ctx, file) == joined(base, inner));
    assert(joined(base, inner).last() == inner.last());
    assert(at_or_under(wanted_folder(ctx, file), category_root(ctx.root, category)));
    assert(at_or_under(base, category_root(ctx.root, category)));
    crate::record_manager::lemma_folder_facts(category);
    let folder = category.folder();
    let start = dir_prefix(ctx.root);
    assert(base == start + folder);
    assert(plain(ctx.root, base)) by {
        assert(base.skip(start.len() as int) =~= folder);
    }
    assert(dir_prefix(base) == base.push('/')) by {
        assert(base.last() == folder.last());
    }
    let year = if file.modified.year < 0 {
        (-file.modified.year) as nat
    } else {
        file.modified.year as nat
    };
    lemma_decimal(year);
    lemma_digits_lack_signs(crate::text::decimal(year));
    assert(lacks(inner, '_')) by {
        let shown = int_text(file.modified.year);
        assert forall|t: int| 0 <= t < shown.len() implies #[trigger] shown[t] != '_' by {
            if file.modified.year < 0 && t > 0 {
                assert(shown[t] == crate::text::decimal(year)[t - 1]);
            }
        }
        assert forall|t: int| 0 <= t < month.len() implies #[trigger] month[t] != '_' by {
            if t < shown.len() {
                assert(month[t] == shown[t]);
            } else {
                assert(month[t] == two_digits(file.modified.month)[t - shown.len()]);
            }
        }
        assert forall|t: int| 0 <= t < inner.len() implies #[trigger] inner[t] != '_' by {
            if file.modified.year < ctx.current_year {
                if t < shown.len() {
                    assert(inner[t] == shown[t]);
                } else if t > shown.len() {
                    assert(inner[t] == month[t - shown.len() - 1]);
                }
            }
        }
    }
    assert(plain(ctx.root, wanted_folder(ctx, file))) by {
        let whole = wanted_folder(ctx, file);
        let tail = whole.skip(start.len() as int);
        assert(whole =~= start + folder + seq!['/'] + inner);
        assert forall|t: int| 0 <= t < tail.len() implies #[trigger] tail[t] != '_' by {
            if t < folder.len() {
                assert(tail[t] == folder[t]);
            } else if t > folder.len() {
                assert(tail[t] == inner[t - folder.len() - 1]);
            }
        }
    }
}

/// One file more keeps the folders fitting.
pub proof fn lemma_visit_fits(ctx: PlanContext, sweep: Sweep, state: SweepState, file: FileInfoView)
    requires
        folders_fit(ctx.root, state.folders),
        file.modified.valid(),
        visit(ctx, sweep, state, file) is Some,
    ensures
        folders_fit(ctx.root, visit(ctx, sweep, state, file)->0.folders),
{
    if !stays(ctx, sweep, file) && sweep == Sweep::Direct {
        lemma_wanted_folder(ctx, file);
        let base = category_root(ctx.root, crate::classify::category_of(file.path));
        lemma_with_missing_fit(ctx.root, ctx.entries, state.folders, base);
        lemma_with_missing_fit(
            ctx.root,
            ctx.entries,
            with_missing(ctx.entries, state.folders, base),
            wanted_folder(ctx, file),
        );
    }
}

/// A sweep keeps the folders fitting.
pub proof fn lemma_sweep_fits(
    ctx: PlanContext,
    sweep: Sweep,
    state: SweepState,
    files: Seq<FileInfoView>,
)
    requires
        folders_fit(ctx.root, state.folders),
        forall|k: int| 0 <= k < files.len() ==> (#[trigger] files[k]).modified.valid(),
        sweep_files(ctx, sweep, state, files) is Some,
    ensures
        folders_fit(ctx.root, sweep_files(ctx, sweep, state, files)->0.folders),
    decreases files.len(),
{
    if files.len() > 0 {
        let front = files.drop_last();
        assert forall|k: int| 0 <= k < front.len() implies (#[trigger] front[k]).modified.valid() by {
            assert(front[k] == files[k]);
        }
        lemma_sweep_fits(ctx, sweep, state, front);
        assert(files.last() == files[files.len() - 1]);
        lemma_visit_fits(ctx, sweep, sweep_files(ctx, sweep, state, front)->0, files.last());
    }
}

/// The files in a folder have dates of the calendar where all entries have.
pub proof fn lemma_files_in_valid(ctx: PlanContext, dir: Seq<char>)
    requires
        tidy(ctx),
    ensures
        forall|k: int|
            0 <= k < files_in(ctx.entries, dir).len() ==> (#[trigger] files_in(
                ctx.entries,
                dir,
            )[k]).modified.valid(),
{
    lemma_files_in_listed(ctx.entries, dir);
    let files = files_in(ctx.entries, dir);
    assert forall|k: int| 0 <= k < files.len() implies (#[trigger] files[k]).modified.valid() by {
        assert(ctx.entries.contains(files[k]));
        let i = choose|i: int| 0 <= i < ctx.entries.len() && ctx.entries[i] == files[k];
        assert(ctx.entries[i].modified.valid());
    }
}

/// The sweeps of the categories' folders keep the folders fitting.
pub proof fn lemma_category_folders_fit(ctx: PlanContext, state: SweepState, count: nat)
    requires
        tidy(ctx),
        folders_fit(ctx.root, state.folders),
        count <= 3,
        sweep_category_folders(ctx, state, count) is Some,
    ensures
        folders_fit(ctx.root, sweep_category_folders(ctx, state, count)->0.folders),
    decreases count,
{
    if count > 0 {
        lemma_category_folders_fit(ctx, state, (count - 1) as nat);
        let before = sweep_category_folders(ctx, state, (count - 1) as nat)->0;
        let category = record_types()[count - 1];
        if ctx.options.covers(category) {
            let dir = category_root(ctx.root, category);
            lemma_files_in_valid(ctx, dir);
            lemma_sweep_fits(ctx, Sweep::Direct, before, files_in(ctx.entries, dir));
        }
    }
}

/// The folder of the target of a justified action is the folder that the
/// moved file is to lie in.
pub proof fn lemma_target_parent(ctx: PlanContext, action: ActionView)
    requires
        tidy(ctx),
        justified(ctx, action),
    ensures
        parent_of(action.target) is Some,
        fits(ctx.root, parent_of(action.target)->0),
{
    let w = choose|w: int|
        0 <= w < ctx.entries.len() && is_route(ctx, #[trigger] ctx.entries[w], action);
    let file = ctx.entries[w];
    let folder = wanted_folder(ctx, file);
    let plain = wanted_name(file);
    let name = if action.target == joined(folder, plain) {
        plain
    } else {
        let index = choose|index: nat|
            2 <= index && action.target == joined(folder, #[trigger] numbered_name(plain, index));
        numbered_name(plain, index)
    };
    assert(nameable(file));
    lemma_target_name(file, name);
    lemma_wanted_folder(ctx, file);
    lemma_parent_joined(folder, name);
}

/// Noting the folders of the targets of justified actions keeps the folders
/// fitting.
pub proof fn lemma_with_parents_fit(ctx: PlanContext, folders: Seq<Seq<char>>, actions: Seq<ActionView>)
    requires
        tidy(ctx),
        folders_fit(ctx.root, folders),
        all_justified(ctx, actions),
    ensures
        folders_fit(ctx.root, with_parents(ctx.entries, folders, actions)),
    decreases actions.len(),
{
    if actions.len() > 0 {
        let front = actions.drop_last();
        assert forall|i: int| 0 <= i < front.len() implies justified(ctx, #[trigger] front[i]) by {
            assert(front[i] == actions[i]);
        }
        lemma_with_parents_fit(ctx, folders, front);
        assert(actions.last() == actions[actions.len() - 1]);
        lemma_target_parent(ctx, actions.last());
        lemma_with_missing_fit(
            ctx.root,
            ctx.entries,
            with_parents(ctx.entries, folders, front),
            parent_of(actions.last().target)->0,
        );
    }
}

/// Where the root is listed, every folder that a plan asks for is the
/// folder of a category or lies below one.
pub proof fn lemma_planned_folders_fit(ctx: PlanContext)
    requires
        tidy(ctx),
        planned(ctx) is Some,
        listed(ctx.entries, ctx.root),
    ensures
        folders_fit(ctx.root, planned(ctx)->0.required_folders),
{
    let none = Seq::<Seq<char>>::empty();
    let start = SweepState { folders: none, actions: Seq::<ActionView>::empty(), planned: none };
    lemma_files_in_valid(ctx, ctx.root);
    lemma_sweep_fits(ctx, Sweep::Direct, start, files_in(ctx.entries, ctx.root));
    let after_root = sweep_files(ctx, Sweep::Direct, start, files_in(ctx.entries, ctx.root))->0;
    lemma_category_folders_fit(ctx, after_root, 3);
    let direct = direct_sweeps(ctx)->0;
    if ctx.options.check_misplaced {
        let moved = misplaced(ctx, direct.planned)->0;
        assert(start.planned =~= none + targets_of(start.actions));
        lemma_files_in_listed(ctx.entries, ctx.root);
        lemma_sweep_keeps(ctx, Sweep::Direct, none, start, files_in(ctx.entries, ctx.root));
        lemma_category_folders_keep(ctx, none, after_root, 3);
        let begin = SweepState {
            folders: none,
            actions: Seq::<ActionView>::empty(),
            planned: direct.planned,
        };
        assert(begin.planned =~= direct.planned + targets_of(begin.actions));
        lemma_category_trees_keep(ctx, direct.planned, begin, 3);
        let middle = sweep_category_trees(ctx, begin, 3)->0;
        lemma_stray_folders_keep(ctx, direct.planned, middle, ctx.entries.len());
        lemma_with_parents_fit(ctx, direct.folders, moved.actions);
    }
}

/// The scan lists none of the folders.
pub open spec fn all_missing(entries: Seq<FileInfoView>, folders: Seq<Seq<char>>) -> bool {
    forall|i: int| 0 <= i < folders.len() ==> !listed(entries, #[trigger] folders[i])
}

/// Noting a folder unless it is listed keeps the folders missing ones.
pub proof fn lemma_with_missing_missing(
    entries: Seq<FileInfoView>,
    folders: Seq<Seq<char>>,
    folder: Seq<char>,
)
    requires
        all_missing(entries, folders),
    ensures
        all_missing(entries, with_missing(entries, folders, folder)),
{
    lemma_with_folder_elements(folders, folder);
    let result = with_missing(entries, folders, folder);
    assert forall|i: int| 0 <= i < result.len() implies !listed(entries, #[trigger] result[i]) by {
        if result[i] != folder {
            let k = choose|k: int| 0 <= k < folders.len() && folders[k] == result[i];
            assert(!listed(entries, folders[k]));
        }
    }
}

/// One file more keeps the folders missing ones.
pub proof fn lemma_visit_missing(ctx: PlanContext, sweep: Sweep, state: SweepState, file: FileInfoView)
    requires
        all_missing(ctx.entries, state.folders),
        visit(ctx, sweep, state, file) is Some,
    ensures
        all_missing(ctx.entries, visit(ctx, sweep, state, file)->0.folders),
{
    if !stays(ctx, sweep, file) && sweep == Sweep::Direct {
        let base = category_root(ctx.root, crate::classify::category_of(file.path));
        lemma_with_missing_missing(ctx.entries, state.folders, base);
        lemma_with_missing_missing(
            ctx.entries,
            with_missing(ctx.entries, state.folders, base),
            wanted_folder(ctx, file),
        );
    }
}

/// A sweep keeps the folders missing ones.
pub proof fn lemma_sweep_missing(
    ctx: PlanContext,
    sweep: Sweep,
    state: SweepState,
    files: Seq<FileInfoView>,
)
    requires
        all_missing(ctx.entries, state.folders),
        sweep_files(ctx, sweep, state, files) is Some,
    ensures
        all_missing(ctx.entries, sweep_files(ctx, sweep, state, files)->0.folders),
    decreases files.len(),
{
    if files.len() > 0 {
        lemma_sweep_missing(ctx, sweep, state, files.drop_last());
        lemma_visit_missing(
            ctx,
            sweep,
            sweep_files(ctx, sweep, state, files.drop_last())->0,
            files.last(),
        );
    }
}

/// The sweeps of the categories' folders keep the folders missing ones.
pub proof fn lemma_category_folders_missing(ctx: PlanContext, state: SweepState, count: nat)
    requires
        all_missing(ctx.entries, state.folders),
        count <= 3,
        sweep_category_folders(ctx, state, count) is Some,
    ensures
        all_missing(ctx.entries, sweep_category_folders(ctx, state, count)->0.folders),
    decreases count,
{
    if count > 0 {
        lemma_category_folders_missing(ctx, state, (count - 1) as nat);
        let before = sweep_category_folders(ctx, state, (count - 1) as nat)->0;
        let category = record_types()[count - 1];
        if ctx.options.covers(category) {
            lemma_sweep_missing(
                ctx,
                Sweep::Direct,
                before,
                files_in(ctx.entries, category_root(ctx.root, category)),
            );
        }
    }
}

/// Noting the folders of targets unless they are listed keeps the folders
/// missing ones.
pub proof fn lemma_with_parents_missing(
    entries: Seq<FileInfoView>,
    folders: Seq<Seq<char>>,
    actions: Seq<ActionView>,
)
    requires
        all_missing(entries, folders),
    ensures
        all_missing(entries, with_parents(entries, folders, actions)),
    decreases actions.len(),
{
    if actions.len() > 0 {
        lemma_with_parents_missing(entries, folders, actions.drop_last());
        match parent_of(actions.last().target) {
            Some(folder) => {
                lemma_with_missing_missing(
                    entries,
                    with_parents(entries, folders, actions.drop_last()),
                    folder,
                );
            },
            None => {},
        }
    }
}

/// Every folder that a plan asks for is missing: the scan does not list
/// it.
pub proof fn lemma_planned_folders_missing(ctx: PlanContext)
    requires
        planned(ctx) is Some,
    ensures
        all_missing(ctx.entries, planned(ctx)->0.required_folders),
{
    if listed(ctx.entries, ctx.root) {
        let none = Seq::<Seq<char>>::empty();
        let start = SweepState { folders: none, actions: Seq::<ActionView>::empty(), planned: none };
        lemma_sweep_missing(ctx, Sweep::Direct, start, files_in(ctx.entries, ctx.root));
        let after_root = sweep_files(ctx, Sweep::Direct, start, files_in(ctx.entries, ctx.root))->0;
        lemma_category_folders_missing(ctx, after_root, 3);
        let direct = direct_sweeps(ctx)->0;
        if ctx.options.check_misplaced {
            let moved = misplaced(ctx, direct.planned)->0;
            lemma_with_parents_missing(ctx.entries, direct.folders, moved.actions);
        }
    }
}

} // verus!
