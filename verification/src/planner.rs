//! The plan, stated: which files are visited in which order, what is decided
//! for each, and what that adds to the plan.

use vstd::prelude::*;
use crate::classify::category_of;
use crate::naming::{is_canonical_name, NamingRule};
use crate::paths::{child_of, is_direct_child, is_under, join, joined, parent, parent_of, under};
use crate::record_manager::{
    action_views, is_standard_folder, record_types, text_views, with_folder, ActionType,
    ActionView, PlanError, PlanView, RecordFileAction, RecordManager, RecordOptions,
    RecordOptionsView, RecordOrganizationPlan, RecordType,
};
use crate::scanner::{
    files_in, files_under, lemma_filter_step, listed, views, DriveScanner, FileInfo,
    FileInfoView,
};
use crate::folder_laws::{all_missing, lemma_planned_folders_missing};
use crate::plan_laws::{distinct_targets, fresh_targets, lemma_plan_overwrites_nothing};
use crate::sorting::{is_sorted, sorted_actions};
use crate::source_laws::{distinct_sources, lemma_each_file_moved_once, listed_once};
use crate::text::{is_text, to_chars};
use crate::target::{record_filename_of, target_folder_of, unique_target};

verus! {

/// What a plan is made from.
pub struct PlanContext {
    pub root: Seq<char>,
    pub options: RecordOptionsView,
    pub entries: Seq<FileInfoView>,
    pub current_year: int,
}

/// How a file was come by.
#[derive(Clone, Copy, Debug, PartialEq, Eq, Structural)]
pub enum Sweep {
    /// It lies directly in the root or directly in a category's folder.
    Direct,
    /// It lies somewhere below the folder of this category.
    Nested(RecordType),
    /// It lies below a folder of the root that belongs to no category.
    Stray,
}

/// What has been decided so far.
pub struct SweepState {
    pub folders: Seq<Seq<char>>,
    pub actions: Seq<ActionView>,
    pub planned: Seq<Seq<char>>,
}

/// The folder of a category below `root`.
pub open spec fn category_root(root: Seq<char>, category: RecordType) -> Seq<char> {
    joined(root, category.folder())
}

/// `folders` with `folder` noted, unless the scan lists it.
pub open spec fn with_missing(
    entries: Seq<FileInfoView>,
    folders: Seq<Seq<char>>,
    folder: Seq<char>,
) -> Seq<Seq<char>> {
    if listed(entries, folder) {
        folders
    } else {
        with_folder(folders, folder)
    }
}

/// The file's name is not a canonical name of its category.
pub open spec fn needs_rename(file: FileInfoView) -> bool {
    !is_canonical_name(file.name, category_of(file.path).prefix())
}

/// The name that the file is to have.
pub open spec fn wanted_name(file: FileInfoView) -> Seq<char> {
    if needs_rename(file) {
        record_filename_of(file.extension, file.modified, category_of(file.path).prefix())
    } else {
        file.name
    }
}

/// The folder that the file is to lie in.
pub open spec fn wanted_folder(ctx: PlanContext, file: FileInfoView) -> Seq<char> {
    target_folder_of(
        category_root(ctx.root, category_of(file.path)),
        file.modified,
        ctx.current_year,
    )
}

/// The file is left where it is, whatever else is planned: its category is
/// not covered; or it was found below a category's folder and lies directly
/// in it, or belongs to that category and has a canonical name; or it lies
/// where it is to lie, under the name that it is to have.
pub open spec fn stays(ctx: PlanContext, sweep: Sweep, file: FileInfoView) -> bool {
    ||| !ctx.options.covers(category_of(file.path))
    ||| (sweep matches Sweep::Nested(folder_category) && (child_of(
        file.path,
        category_root(ctx.root, folder_category),
    ) || (folder_category == category_of(file.path) && !needs_rename(file))))
    ||| joined(wanted_folder(ctx, file), wanted_name(file)) == file.path
}

/// Why the file is moved.
pub open spec fn kind_of(sweep: Sweep, file: FileInfoView) -> ActionType {
    if needs_rename(file) {
        ActionType::Rename
    } else if sweep == Sweep::Direct {
        ActionType::Move
    } else {
        ActionType::MoveToCorrectLocation
    }
}

/// The state after one file: unchanged where the file stays; else with the
/// action that takes it to a path of its own, and, for a file found
/// directly, with the folders that its way needs. Nothing where no path can
/// be had.
pub open spec fn visit(ctx: PlanContext, sweep: Sweep, state: SweepState, file: FileInfoView) -> Option<
    SweepState,
> {
    if stays(ctx, sweep, file) {
        Some(state)
    } else {
        match unique_target(wanted_folder(ctx, file), wanted_name(file), ctx.entries, state.planned) {
            None => None,
            Some(target) => Some(
                SweepState {
                    folders: if sweep == Sweep::Direct {
                        with_missing(
                            ctx.entries,
                            with_missing(
                                ctx.entries,
                                state.folders,
                                category_root(ctx.root, category_of(file.path)),
                            ),
                            wanted_folder(ctx, file),
                        )
                    } else {
                        state.folders
                    },
                    actions: state.actions.push(
                        ActionView {
                            source: file.path,
                            target,
                            action_type: kind_of(sweep, file),
                        },
                    ),
                    planned: state.planned.push(target),
                },
            ),
        }
    }
}

/// The state after the files of `files`, one after the other.
pub open spec fn sweep_files(
    ctx: PlanContext,
    sweep: Sweep,
    state: SweepState,
    files: Seq<FileInfoView>,
) -> Option<SweepState>
    decreases files.len(),
{
    if files.len() == 0 {
        Some(state)
    } else {
        match sweep_files(ctx, sweep, state, files.drop_last()) {
            None => None,
            Some(before) => visit(ctx, sweep, before, files.last()),
        }
    }
}

/// The state after the files directly in the folders of the first `count`
/// categories that the run covers.
pub open spec fn sweep_category_folders(ctx: PlanContext, state: SweepState, count: nat) -> Option<
    SweepState,
>
    decreases count,
{
    if count == 0 {
        Some(state)
    } else {
        match sweep_category_folders(ctx, state, (count - 1) as nat) {
            None => None,
            Some(before) => {
                let category = record_types()[count - 1];
                if ctx.options.covers(category) {
                    sweep_files(
                        ctx,
                        Sweep::Direct,
                        before,
                        files_in(ctx.entries, category_root(ctx.root, category)),
                    )
                } else {
                    Some(before)
                }
            },
        }
    }
}

/// The state after the files anywhere below the folders of the first
/// `count` categories that the run covers.
pub open spec fn sweep_category_trees(ctx: PlanContext, state: SweepState, count: nat) -> Option<
    SweepState,
>
    decreases count,
{
    if count == 0 {
        Some(state)
    } else {
        match sweep_category_trees(ctx, state, (count - 1) as nat) {
            None => None,
            Some(before) => {
                let category = record_types()[count - 1];
                if ctx.options.covers(category) {
                    sweep_files(
                        ctx,
                        Sweep::Nested(category),
                        before,
                        files_under(ctx.entries, category_root(ctx.root, category)),
                    )
                } else {
                    Some(before)
                }
            },
        }
    }
}

/// A folder directly in the root that belongs to no category.
pub open spec fn is_stray_folder(root: Seq<char>, entry: FileInfoView) -> bool {
    entry.is_dir && child_of(entry.path, root) && !is_standard_folder(entry.name)
}

/// The state after the files below the stray folders among the first
/// `count` entries.
pub open spec fn sweep_stray_folders(ctx: PlanContext, state: SweepState, count: nat) -> Option<
    SweepState,
>
    decreases count,
{
    if count == 0 {
        Some(state)
    } else {
        match sweep_stray_folders(ctx, state, (count - 1) as nat) {
            None => None,
            Some(before) => {
                let entry = ctx.entries[count - 1];
                if is_stray_folder(ctx.root, entry) {
                    sweep_files(ctx, Sweep::Stray, before, files_under(ctx.entries, entry.path))
                } else {
                    Some(before)
                }
            },
        }
    }
}

/// The actions for files in the wrong place, given the targets planned
/// before: first below the categories' folders, then below stray folders.
pub open spec fn misplaced(ctx: PlanContext, planned: Seq<Seq<char>>) -> Option<SweepState> {
    let start = SweepState {
        folders: Seq::<Seq<char>>::empty(),
        actions: Seq::<ActionView>::empty(),
        planned,
    };
    match sweep_category_trees(ctx, start, 3) {
        None => None,
        Some(after) => sweep_stray_folders(ctx, after, ctx.entries.len()),
    }
}

/// `folders` with the folder of each target noted, unless the scan lists it.
pub open spec fn with_parents(
    entries: Seq<FileInfoView>,
    folders: Seq<Seq<char>>,
    actions: Seq<ActionView>,
) -> Seq<Seq<char>>
    decreases actions.len(),
{
    if actions.len() == 0 {
        folders
    } else {
        let before = with_parents(entries, folders, actions.drop_last());
        match parent_of(actions.last().target) {
            Some(folder) => with_missing(entries, before, folder),
            None => before,
        }
    }
}

/// The state after the files directly in the root and directly in the
/// categories' folders.
pub open spec fn direct_sweeps(ctx: PlanContext) -> Option<SweepState> {
    let start = SweepState {
        folders: Seq::<Seq<char>>::empty(),
        actions: Seq::<ActionView>::empty(),
        planned: Seq::<Seq<char>>::empty(),
    };
    match sweep_files(ctx, Sweep::Direct, start, files_in(ctx.entries, ctx.root)) {
        None => None,
        Some(after) => sweep_category_folders(ctx, after, 3),
    }
}

/// The plan with its actions in the order in which they were decided. A
/// root that the scan does not list is all there is to create.
pub open spec fn planned(ctx: PlanContext) -> Option<PlanView> {
    if !listed(ctx.entries, ctx.root) {
        Some(
            PlanView {
                record_root: ctx.root,
                actions: Seq::<ActionView>::empty(),
                required_folders: seq![ctx.root],
            },
        )
    } else {
        match direct_sweeps(ctx) {
            None => None,
            Some(direct) => if !ctx.options.check_misplaced {
                Some(
                    PlanView {
                        record_root: ctx.root,
                        actions: direct.actions,
                        required_folders: direct.folders,
                    },
                )
            } else {
                match misplaced(ctx, direct.planned) {
                    None => None,
                    Some(moved) => Some(
                        PlanView {
                            record_root: ctx.root,
                            actions: direct.actions + moved.actions,
                            required_folders: with_parents(
                                ctx.entries,
                                direct.folders,
                                moved.actions,
                            ),
                        },
                    ),
                }
            },
        }
    }
}

/// The plan: what `planned` says, with the actions in order.
pub open spec fn plan_of(ctx: PlanContext) -> Option<PlanView> {
    match planned(ctx) {
        Some(plan) => Some(
            PlanView {
                record_root: plan.record_root,
                actions: sorted_actions(plan.actions),
                required_folders: plan.required_folders,
            },
        ),
        None => None,
    }
}

/// The context that the arguments of a run describe.
pub open spec fn context_of(
    record_root: Seq<char>,
    options: RecordOptionsView,
    entries: Seq<FileInfo>,
    current_year: int,
) -> PlanContext {
    PlanContext { root: record_root, options, entries: views(entries), current_year }
}

/// The state that a plan under construction and the planned targets stand
/// for.
pub open spec fn state_of(plan: PlanView, planned_targets: Seq<String>) -> SweepState {
    SweepState {
        folders: plan.required_folders,
        actions: plan.actions,
        planned: text_views(planned_targets),
    }
}

impl RecordManager {
    /// Decides what happens to one file and adds it to the plan.
    pub fn route_file(
        record_root: &str,
        options: &RecordOptions,
        entries: &Vec<FileInfo>,
        current_year: i32,
        sweep: Sweep,
        file: &FileInfo,
        plan: &mut RecordOrganizationPlan,
        planned_targets: &mut Vec<String>,
    ) -> (r: Result<(), PlanError>)
        ensures
            final(plan)@.record_root == old(plan)@.record_root,
            sweep != Sweep::Direct ==> final(plan)@.required_folders == old(
                plan,
            )@.required_folders,
            old(plan)@.wf() ==> final(plan)@.wf(),
            match r {
                Ok(_) => visit(
                    context_of(record_root@, options@, entries@, current_year as int),
                    sweep,
                    state_of(old(plan)@, old(planned_targets)@),
                    file@,
                ) == Some(state_of(final(plan)@, final(planned_targets)@)),
                Err(e) => e == PlanError::SuffixExhaustion && visit(
                    context_of(record_root@, options@, entries@, current_year as int),
                    sweep,
                    state_of(old(plan)@, old(planned_targets)@),
                    file@,
                ) is None,
            },
    {
        let ghost ctx = context_of(record_root@, options@, entries@, current_year as int);
        let category = Self::guess_record_type(file.path.as_str());
        if !options.includes(&category) {
            return Ok(());
        }
        let rename = !NamingRule::matches_canonical(file.name.as_str(), &category);
        match sweep {
            Sweep::Nested(folder_category) => {
                let folder_path = join(record_root, folder_category.folder_name());
                if is_direct_child(file.path.as_str(), folder_path.as_str()) {
                    return Ok(());
                }
                if folder_category == category && !rename {
                    return Ok(());
                }
            },
            _ => {},
        }
        let record_path = join(record_root, category.folder_name());
        let target_folder = Self::determine_target_folder(file, record_path.as_str(), current_year);
        let base_filename = if rename {
            Self::generate_record_filename(file, &category)
        } else {
            file.name.clone()
        };
        let desired = join(target_folder.as_str(), base_filename.as_str());
        if desired == file.path {
            return Ok(());
        }
        assert(!stays(ctx, sweep, file@));
        let target_path = match Self::unique_target_path(
            target_folder.as_str(),
            base_filename.as_str(),
            planned_targets,
            entries,
        ) {
            Ok(path) => path,
            Err(e) => {
                return Err(e);
            },
        };
        let action_type = if rename {
            ActionType::Rename
        } else if sweep == Sweep::Direct {
            ActionType::Move
        } else {
            ActionType::MoveToCorrectLocation
        };
        if sweep == Sweep::Direct {
            let record_path_listed = DriveScanner::has_path(entries, record_path.as_str());
            plan.register_folder(record_path.as_str(), record_path_listed);
            let target_folder_listed = DriveScanner::has_path(entries, target_folder.as_str());
            plan.register_folder(target_folder.as_str(), target_folder_listed);
        }
        let ghost actions_before = plan@.actions;
        plan.actions.push(
            RecordFileAction { source: file.path.clone(), target: target_path, action_type },
        );
        proof {
            assert(plan@.actions =~= actions_before.push(
                ActionView { source: file@.path, target: target_path@, action_type },
            ));
        }
        Ok(())
    }

    /// Decides what happens to the files of `files`, one after the other.
    pub fn route_files(
        record_root: &str,
        options: &RecordOptions,
        entries: &Vec<FileInfo>,
        current_year: i32,
        sweep: Sweep,
        files: &Vec<FileInfo>,
        plan: &mut RecordOrganizationPlan,
        planned_targets: &mut Vec<String>,
    ) -> (r: Result<(), PlanError>)
        ensures
            final(plan)@.record_root == old(plan)@.record_root,
            sweep != Sweep::Direct ==> final(plan)@.required_folders == old(
                plan,
            )@.required_folders,
            old(plan)@.wf() ==> final(plan)@.wf(),
            match r {
                Ok(_) => sweep_files(
                    context_of(record_root@, options@, entries@, current_year as int),
                    sweep,
                    state_of(old(plan)@, old(planned_targets)@),
                    views(files@),
                ) == Some(state_of(final(plan)@, final(planned_targets)@)),
                Err(e) => e == PlanError::SuffixExhaustion && sweep_files(
                    context_of(record_root@, options@, entries@, current_year as int),
                    sweep,
                    state_of(old(plan)@, old(planned_targets)@),
                    views(files@),
                ) is None,
            },
    {
        let ghost ctx = context_of(record_root@, options@, entries@, current_year as int);
        let ghost start = state_of(plan@, planned_targets@);
        let ghost all = views(files@);
        let mut i: usize = 0;
        proof {
            assert(all.take(0) =~= Seq::<FileInfoView>::empty());
        }
        while i < files.len()
            invariant
                i <= files.len(),
                all == views(files@),
                ctx == context_of(record_root@, options@, entries@, current_year as int),
                start == state_of(old(plan)@, old(planned_targets)@),
                plan@.record_root == old(plan)@.record_root,
                sweep != Sweep::Direct ==> plan@.required_folders == old(plan)@.required_folders,
                old(plan)@.wf() ==> plan@.wf(),
                sweep_files(ctx, sweep, start, all.take(i as int)) == Some(
                    state_of(plan@, planned_targets@),
                ),
            decreases files.len() - i,
        {
            proof {
                assert(all.take(i + 1).drop_last() =~= all.take(i as int));
                assert(all.take(i + 1).last() == files@[i as int]@);
            }
            match Self::route_file(
                record_root,
                options,
                entries,
                current_year,
                sweep,
                &files[i],
                plan,
                planned_targets,
            ) {
                Ok(_) => {},
                Err(e) => {
                    proof {
                        lemma_sweep_fails_on(ctx, sweep, start, all, i + 1);
                    }
                    return Err(e);
                },
            }
            i += 1;
        }
        proof {
            assert(all.take(files.len() as int) =~= all);
        }
        Ok(())
    }
}

/// Once no path can be had for a file, none can be had for the list.
pub proof fn lemma_sweep_fails_on(
    ctx: PlanContext,
    sweep: Sweep,
    state: SweepState,
    files: Seq<FileInfoView>,
    upto: int,
)
    requires
        0 <= upto <= files.len(),
        sweep_files(ctx, sweep, state, files.take(upto)) is None,
    ensures
        sweep_files(ctx, sweep, state, files) is None,
    decreases files.len() - upto,
{
    if upto < files.len() {
        assert(files.take(upto + 1).drop_last() =~= files.take(upto));
        lemma_sweep_fails_on(ctx, sweep, state, files, upto + 1);
    } else {
        assert(files.take(upto) =~= files);
    }
}

/// Once no path can be had below one category's folder, none can be had
/// after all of them.
pub proof fn lemma_category_folders_fail(ctx: PlanContext, state: SweepState, count: nat, total: nat)
    requires
        count <= total,
        sweep_category_folders(ctx, state, count) is None,
    ensures
        sweep_category_folders(ctx, state, total) is None,
    decreases total - count,
{
    if count < total {
        lemma_category_folders_fail(ctx, state, count + 1, total);
    }
}

/// Once no path can be had below one category's folder, none can be had
/// after all of them.
pub proof fn lemma_category_trees_fail(ctx: PlanContext, state: SweepState, count: nat, total: nat)
    requires
        count <= total,
        sweep_category_trees(ctx, state, count) is None,
    ensures
        sweep_category_trees(ctx, state, total) is None,
    decreases total - count,
{
    if count < total {
        lemma_category_trees_fail(ctx, state, count + 1, total);
    }
}

/// Once no path can be had below one stray folder, none can be had after
/// all of them.
pub proof fn lemma_stray_folders_fail(ctx: PlanContext, state: SweepState, count: nat, total: nat)
    requires
        count <= total,
        sweep_stray_folders(ctx, state, count) is None,
    ensures
        sweep_stray_folders(ctx, state, total) is None,
    decreases total - count,
{
    if count < total {
        lemma_stray_folders_fail(ctx, state, count + 1, total);
    }
}

impl RecordManager {
    /// The three categories, in the order in which their folders are
    /// visited.
    pub fn all_record_types() -> (types: Vec<RecordType>)
        ensures
            types@ == record_types(),
    {
        let mut types: Vec<RecordType> = Vec::new();
        types.push(RecordType::ScreenCapture);
        types.push(RecordType::ScreenRecord);
        types.push(RecordType::VoiceRecord);
        proof {
            assert(types@ =~= record_types());
        }
        types
    }

    /// The files that the scan lists directly in `record_path`.
    pub fn scan_record_folder(record_path: &str, entries: &Vec<FileInfo>) -> (files: Vec<FileInfo>)
        ensures
            views(files@) == files_in(views(entries@), record_path@),
    {
        let ghost all = views(entries@);
        let ghost keep = |e: FileInfoView| !e.is_dir && child_of(e.path, record_path@);
        let mut files: Vec<FileInfo> = Vec::new();
        let mut i: usize = 0;
        proof {
            assert(all.take(0) =~= Seq::<FileInfoView>::empty());
            assert(views(files@) =~= all.take(0).filter(keep));
        }
        while i < entries.len()
            invariant
                i <= entries.len(),
                all == views(entries@),
                keep == |e: FileInfoView| !e.is_dir && child_of(e.path, record_path@),
                views(files@) == all.take(i as int).filter(keep),
            decreases entries.len() - i,
        {
            let ghost before = views(files@);
            proof {
                lemma_filter_step(all, keep, i as int);
            }
            if !entries[i].is_dir && is_direct_child(entries[i].path.as_str(), record_path) {
                files.push(entries[i].clone());
                proof {
                    assert(views(files@) =~= before.push(all[i as int]));
                }
            }
            i += 1;
        }
        proof {
            assert(all.take(entries.len() as int) =~= all);
        }
        files
    }

    /// The files that the scan lists anywhere below `record_path`.
    pub fn scan_all_files_recursive(record_path: &str, entries: &Vec<FileInfo>) -> (files: Vec<
        FileInfo,
    >)
        ensures
            views(files@) == files_under(views(entries@), record_path@),
    {
        let ghost all = views(entries@);
        let ghost keep = |e: FileInfoView| !e.is_dir && under(e.path, record_path@);
        let mut files: Vec<FileInfo> = Vec::new();
        let mut i: usize = 0;
        proof {
            assert(all.take(0) =~= Seq::<FileInfoView>::empty());
            assert(views(files@) =~= all.take(0).filter(keep));
        }
        while i < entries.len()
            invariant
                i <= entries.len(),
                all == views(entries@),
                keep == |e: FileInfoView| !e.is_dir && under(e.path, record_path@),
                views(files@) == all.take(i as int).filter(keep),
            decreases entries.len() - i,
        {
            let ghost before = views(files@);
            proof {
                lemma_filter_step(all, keep, i as int);
            }
            if !entries[i].is_dir && is_under(entries[i].path.as_str(), record_path) {
                files.push(entries[i].clone());
                proof {
                    assert(views(files@) =~= before.push(all[i as int]));
                }
            }
            i += 1;
        }
        proof {
            assert(all.take(entries.len() as int) =~= all);
        }
        files
    }

    /// Whether `entry` is a folder directly in the root that belongs to no
    /// category.
    pub fn is_stray_folder(record_root: &str, entry: &FileInfo) -> (b: bool)
        ensures
            b == is_stray_folder(record_root@, entry@),
    {
        if !entry.is_dir || !is_direct_child(entry.path.as_str(), record_root) {
            return false;
        }
        let name = to_chars(entry.name.as_str());
        !(is_text(&name, RecordType::ScreenCapture.folder_name()) || is_text(
            &name,
            RecordType::ScreenRecord.folder_name(),
        ) || is_text(&name, RecordType::VoiceRecord.folder_name()))
    }

    /// The actions for files in the wrong place: below the folder of a
    /// category to which they do not belong or under a name that is not
    /// canonical, and anywhere below a stray folder.
    pub fn check_misplaced_files(
        record_base: &str,
        options: &RecordOptions,
        entries: &Vec<FileInfo>,
        current_year: i32,
        planned_targets: &mut Vec<String>,
    ) -> (r: Result<Vec<RecordFileAction>, PlanError>)
        ensures
            match r {
                Ok(actions) => misplaced(
                    context_of(record_base@, options@, entries@, current_year as int),
                    text_views(old(planned_targets)@),
                ) == Some(
                    SweepState {
                        folders: Seq::<Seq<char>>::empty(),
                        actions: action_views(actions@),
                        planned: text_views(final(planned_targets)@),
                    },
                ),
                Err(e) => e == PlanError::SuffixExhaustion && misplaced(
                    context_of(record_base@, options@, entries@, current_year as int),
                    text_views(old(planned_targets)@),
                ) is None,
            },
    {
        let ghost ctx = context_of(record_base@, options@, entries@, current_year as int);
        let mut scratch = RecordOrganizationPlan::new(record_base.to_owned());
        let ghost start = state_of(scratch@, planned_targets@);
        proof {
            assert(start.folders =~= Seq::<Seq<char>>::empty());
            assert(start.actions =~= Seq::<ActionView>::empty());
            assert(start == (SweepState {
                folders: Seq::<Seq<char>>::empty(),
                actions: Seq::<ActionView>::empty(),
                planned: text_views(old(planned_targets)@),
            }));
        }
        let types = Self::all_record_types();
        let mut k: usize = 0;
        while k < 3
            invariant
                k <= 3,
                types@ == record_types(),
                ctx == context_of(record_base@, options@, entries@, current_year as int),
                start == (SweepState {
                    folders: Seq::<Seq<char>>::empty(),
                    actions: Seq::<ActionView>::empty(),
                    planned: text_views(old(planned_targets)@),
                }),
                scratch@.required_folders == Seq::<Seq<char>>::empty(),
                sweep_category_trees(ctx, start, k as nat) == Some(
                    state_of(scratch@, planned_targets@),
                ),
            decreases 3 - k,
        {
            let record_type = types[k];
            if options.includes(&record_type) {
                let record_path = join(record_base, record_type.folder_name());
                let files = Self::scan_all_files_recursive(record_path.as_str(), entries);
                match Self::route_files(
                    record_base,
                    options,
                    entries,
                    current_year,
                    Sweep::Nested(record_type),
                    &files,
                    &mut scratch,
                    planned_targets,
                ) {
                    Ok(_) => {},
                    Err(e) => {
                        proof {
                            lemma_category_trees_fail(ctx, start, (k + 1) as nat, 3);
                        }
                        return Err(e);
                    },
                }
            }
            k += 1;
        }
        let ghost middle = state_of(scratch@, planned_targets@);
        let mut i: usize = 0;
        while i < entries.len()
            invariant
                i <= entries.len(),
                ctx == context_of(record_base@, options@, entries@, current_year as int),
                start == (SweepState {
                    folders: Seq::<Seq<char>>::empty(),
                    actions: Seq::<ActionView>::empty(),
                    planned: text_views(old(planned_targets)@),
                }),
                sweep_category_trees(ctx, start, 3) == Some(middle),
                scratch@.required_folders == Seq::<Seq<char>>::empty(),
                sweep_stray_folders(ctx, middle, i as nat) == Some(
                    state_of(scratch@, planned_targets@),
                ),
            decreases entries.len() - i,
        {
            if Self::is_stray_folder(record_base, &entries[i]) {
                let files = Self::scan_all_files_recursive(entries[i].path.as_str(), entries);
                match Self::route_files(
                    record_base,
                    options,
                    entries,
                    current_year,
                    Sweep::Stray,
                    &files,
                    &mut scratch,
                    planned_targets,
                ) {
                    Ok(_) => {},
                    Err(e) => {
                        proof {
                            lemma_stray_folders_fail(
                                ctx,
                                middle,
                                (i + 1) as nat,
                                entries.len() as nat,
                            );
                        }
                        return Err(e);
                    },
                }
            }
            i += 1;
        }
        Ok(scratch.actions)
    }

    /// The plan for the folder `record_root`, made from what a scan of it
    /// lists and from the current year. Nothing is read and nothing is
    /// changed: the plan says what is to be created and what is to be moved,
    /// with the actions in order.
    pub fn plan(
        record_root: &str,
        options: &RecordOptions,
        entries: &Vec<FileInfo>,
        current_year: i32,
    ) -> (r: Result<RecordOrganizationPlan, PlanError>)
        ensures
            match r {
                Ok(plan) => {
                    &&& plan_of(context_of(record_root@, options@, entries@, current_year as int))
                        == Some(plan@)
                    &&& plan@.record_root == record_root@
                    &&& plan@.wf()
                    &&& all_missing(views(entries@), plan@.required_folders)
                    &&& is_sorted(plan@.actions)
                    &&& distinct_targets(plan@.actions)
                    &&& fresh_targets(views(entries@), plan@.actions)
                    &&& listed_once(views(entries@)) ==> distinct_sources(plan@.actions)
                },
                Err(e) => e == PlanError::SuffixExhaustion && plan_of(
                    context_of(record_root@, options@, entries@, current_year as int),
                ) is None,
            },
    {
        let ghost ctx = context_of(record_root@, options@, entries@, current_year as int);
        let mut plan = RecordOrganizationPlan::new(record_root.to_owned());
        proof {
            assert(plan@.actions =~= Seq::<ActionView>::empty());
            assert(plan@.required_folders =~= Seq::<Seq<char>>::empty());
        }
        if !DriveScanner::has_path(entries, record_root) {
            plan.register_folder(record_root, false);
            proof {
                assert(plan@.required_folders =~= seq![record_root@]);
                assert(plan@.actions =~= sorted_actions(Seq::<ActionView>::empty()));
                lemma_plan_overwrites_nothing(ctx);
                lemma_planned_folders_missing(ctx);
                if listed_once(views(entries@)) {
                    lemma_each_file_moved_once(ctx);
                }
            }
            return Ok(plan);
        }
        let mut planned_targets: Vec<String> = Vec::new();
        let ghost start = state_of(plan@, planned_targets@);
        proof {
            assert(start.planned =~= Seq::<Seq<char>>::empty());
            assert(start == (SweepState {
                folders: Seq::<Seq<char>>::empty(),
                actions: Seq::<ActionView>::empty(),
                planned: Seq::<Seq<char>>::empty(),
            }));
        }
        let root_files = Self::scan_record_folder(record_root, entries);
        match Self::route_files(
            record_root,
            options,
            entries,
            current_year,
            Sweep::Direct,
            &root_files,
            &mut plan,
            &mut planned_targets,
        ) {
            Ok(_) => {},
            Err(e) => {
                return Err(e);
            },
        }
        let ghost after_root = state_of(plan@, planned_targets@);
        let types = Self::all_record_types();
        let mut k: usize = 0;
        while k < 3
            invariant
                k <= 3,
                types@ == record_types(),
                ctx == context_of(record_root@, options@, entries@, current_year as int),
                listed(ctx.entries, ctx.root),
                sweep_files(
                    ctx,
                    Sweep::Direct,
                    SweepState {
                        folders: Seq::<Seq<char>>::empty(),
                        actions: Seq::<ActionView>::empty(),
                        planned: Seq::<Seq<char>>::empty(),
                    },
                    files_in(ctx.entries, ctx.root),
                ) == Some(after_root),
                plan@.record_root == record_root@,
                plan@.wf(),
                sweep_category_folders(ctx, after_root, k as nat) == Some(
                    state_of(plan@, planned_targets@),
                ),
            decreases 3 - k,
        {
            let record_type = types[k];
            if options.includes(&record_type) {
                let record_path = join(record_root, record_type.folder_name());
                let files = Self::scan_record_folder(record_path.as_str(), entries);
                match Self::route_files(
                    record_root,
                    options,
                    entries,
                    current_year,
                    Sweep::Direct,
                    &files,
                    &mut plan,
                    &mut planned_targets,
                ) {
                    Ok(_) => {},
                    Err(e) => {
                        proof {
                            lemma_category_folders_fail(ctx, after_root, (k + 1) as nat, 3);
                        }
                        return Err(e);
                    },
                }
            }
            k += 1;
        }
        let ghost direct = state_of(plan@, planned_targets@);
        assert(direct_sweeps(ctx) == Some(direct));
        if options.check_misplaced {
            let moved = match Self::check_misplaced_files(
                record_root,
                options,
                entries,
                current_year,
                &mut planned_targets,
            ) {
                Ok(actions) => actions,
                Err(e) => {
                    return Err(e);
                },
            };
            let ghost moved_views = action_views(moved@);
            let mut i: usize = 0;
            proof {
                assert(moved_views.take(0) =~= Seq::<ActionView>::empty());
            }
            while i < moved.len()
                invariant
                    i <= moved.len(),
                    moved_views == action_views(moved@),
                    plan@.record_root == record_root@,
                    plan@.wf(),
                    plan@.actions == direct.actions + moved_views.take(i as int),
                    plan@.required_folders == with_parents(
                        views(entries@),
                        direct.folders,
                        moved_views.take(i as int),
                    ),
                decreases moved.len() - i,
            {
                proof {
                    assert(moved_views.take(i + 1).drop_last() =~= moved_views.take(i as int));
                    assert(moved_views.take(i + 1).last() == moved@[i as int]@);
                }
                match parent(moved[i].target.as_str()) {
                    Some(folder) => {
                        let folder_listed = DriveScanner::has_path(entries, folder.as_str());
                        plan.register_folder(folder.as_str(), folder_listed);
                    },
                    None => {},
                }
                let ghost actions_before = plan@.actions;
                plan.actions.push(moved[i].clone());
                proof {
                    assert(plan@.actions =~= actions_before.push(moved@[i as int]@));
                    assert(plan@.actions =~= direct.actions + moved_views.take(i + 1));
                }
                i += 1;
            }
            proof {
                assert(moved_views.take(moved.len() as int) =~= moved_views);
            }
        }
        Self::sort_actions(&mut plan.actions);
        proof {
            lemma_plan_overwrites_nothing(ctx);
            lemma_planned_folders_missing(ctx);
            if listed_once(views(entries@)) {
                lemma_each_file_moved_once(ctx);
            }
        }
        Ok(plan)
    }
}

} // verus!
