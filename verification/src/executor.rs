//! Carrying out recommendations and keeping the standard layout in place,
//! as lists of file system operations.

use vstd::prelude::*;
use crate::applier::{action_operations, operation_views, FsOperation, FsOperationView};
use crate::paths::{join, joined, parent, parent_of};
use crate::record_manager::{text_views, ActionType, ActionView};
use crate::recommender::FileRecommendation;
use crate::scanner::{views, DriveScanner, FileInfo, FileInfoView};
use crate::structure::{absent_paths, paths_of, standard_structure, FolderStructure};

verus! {

/// What came of carrying out moves: those that were made, and those that
/// failed, with the reason.
#[derive(Debug)]
pub struct ExecutionResult {
    pub moved: Vec<(String, String)>,
    pub failed: Vec<(String, String, String)>,
}

/// Why no operations could be given.
#[derive(Debug, PartialEq, Eq)]
pub enum ExecutorError {
    /// The path lies in no folder.
    NoParent { path: String },
}

/// Says what is to be done; in a dry run the operations are shown and not
/// carried out.
pub struct Executor {
    dry_run: bool,
}

/// The operations for one move from `source` to `target`: nothing where
/// both lie in one folder; else the creation of the target's folder where
/// the scan does not list it, then the move.
pub open spec fn placement_operations(
    entries: Seq<FileInfoView>,
    source: Seq<char>,
    target: Seq<char>,
) -> Seq<FsOperationView> {
    if parent_of(source) == parent_of(target) {
        Seq::<FsOperationView>::empty()
    } else {
        action_operations(entries, ActionView { source, target, action_type: ActionType::Move })
    }
}

/// The operations for the first `count` of the moves `pairs`, in order.
pub open spec fn batch_operations(
    entries: Seq<FileInfoView>,
    pairs: Seq<(Seq<char>, Seq<char>)>,
    count: nat,
) -> Seq<FsOperationView>
    decreases count,
{
    if count == 0 {
        Seq::<FsOperationView>::empty()
    } else {
        batch_operations(entries, pairs, (count - 1) as nat) + placement_operations(
            entries,
            pairs[count - 1].0,
            pairs[count - 1].1,
        )
    }
}

/// Source and target of each recommendation.
pub open spec fn recommended_moves(recommendations: Seq<FileRecommendation>) -> Seq<
    (Seq<char>, Seq<char>),
> {
    Seq::new(
        recommendations.len(),
        |i: int| (recommendations[i].file.path@, recommendations[i].recommendation.target_path@),
    )
}

/// The renaming of the first `count` of `files`, each a path and a new
/// name: the moves within the folders; or the first path that lies in no
/// folder.
pub open spec fn rename_operations(files: Seq<(Seq<char>, Seq<char>)>, count: nat) -> Result<
    Seq<FsOperationView>,
    Seq<char>,
>
    decreases count,
{
    if count == 0 {
        Ok(Seq::<FsOperationView>::empty())
    } else {
        match rename_operations(files, (count - 1) as nat) {
            Err(path) => Err(path),
            Ok(before) => match parent_of(files[count - 1].0) {
                None => Err(files[count - 1].0),
                Some(folder) => Ok(
                    before.push(
                        FsOperationView::Rename {
                            source: files[count - 1].0,
                            target: joined(folder, files[count - 1].1),
                        },
                    ),
                ),
            },
        }
    }
}

/// Pairs of texts as plain values.
pub open spec fn pair_views(pairs: Seq<(String, String)>) -> Seq<(Seq<char>, Seq<char>)> {
    Seq::new(pairs.len(), |i: int| (pairs[i].0@, pairs[i].1@))
}

/// Once a path lies in no folder, the renaming has failed.
pub proof fn lemma_rename_fails(files: Seq<(Seq<char>, Seq<char>)>, count: nat, total: nat)
    requires
        count <= total,
        rename_operations(files, count) is Err,
    ensures
        rename_operations(files, total) == rename_operations(files, count),
    decreases total - count,
{
    if count < total {
        lemma_rename_fails(files, count + 1, total);
    }
}

impl Executor {
    /// An executor; `dry_run` says whether operations are only to be shown.
    pub fn new(dry_run: bool) -> (r: Self)
        ensures
            r.dry_run_spec() == dry_run,
    {
        Executor { dry_run }
    }

    /// Whether operations are only to be shown.
    pub closed spec fn dry_run_spec(&self) -> bool {
        self.dry_run
    }

    /// Whether operations are only to be shown.
    pub fn is_dry_run(&self) -> (b: bool)
        ensures
            b == self.dry_run_spec(),
    {
        self.dry_run
    }

    /// The operations that move each file to the place recommended for it.
    pub fn execute_recommendations(
        &self,
        recommendations: &Vec<FileRecommendation>,
        entries: &Vec<FileInfo>,
    ) -> (operations: Vec<FsOperation>)
        ensures
            operation_views(operations@) == batch_operations(
                views(entries@),
                recommended_moves(recommendations@),
                recommendations.len() as nat,
            ),
    {
        let ghost pairs = recommended_moves(recommendations@);
        let ghost all = views(entries@);
        let mut operations: Vec<FsOperation> = Vec::new();
        let mut i: usize = 0;
        proof {
            assert(operation_views(operations@) =~= batch_operations(all, pairs, 0));
        }
        while i < recommendations.len()
            invariant
                i <= recommendations.len(),
                pairs == recommended_moves(recommendations@),
                all == views(entries@),
                operation_views(operations@) == batch_operations(all, pairs, i as nat),
            decreases recommendations.len() - i,
        {
            let ghost before = operation_views(operations@);
            let source = &recommendations[i].file.path;
            let target = &recommendations[i].recommendation.target_path;
            let ghost rename = FsOperationView::Rename { source: source@, target: target@ };
            proof {
                assert(pairs[i as int] == (source@, target@));
            }
            let source_folder = parent(source.as_str());
            let target_folder = parent(target.as_str());
            let same = match (&source_folder, &target_folder) {
                (Some(a), Some(b)) => *a == *b,
                (None, None) => true,
                _ => false,
            };
            if !same {
                match target_folder {
                    Some(folder) => {
                        if !DriveScanner::has_path(entries, folder.as_str()) {
                            operations.push(FsOperation::CreateDirAll { path: folder });
                            operations.push(
                                FsOperation::Rename {
                                    source: source.clone(),
                                    target: target.clone(),
                                },
                            );
                            proof {
                                assert(operation_views(operations@) =~= before + seq![
                                    FsOperationView::CreateDirAll { path: folder@ },
                                    rename,
                                ]);
                            }
                        } else {
                            operations.push(
                                FsOperation::Rename {
                                    source: source.clone(),
                                    target: target.clone(),
                                },
                            );
                            proof {
                                assert(operation_views(operations@) =~= before + seq![rename]);
                            }
                        }
                    },
                    None => {
                        operations.push(
                            FsOperation::Rename { source: source.clone(), target: target.clone() },
                        );
                        proof {
                            assert(operation_views(operations@) =~= before + seq![rename]);
                        }
                    },
                }
            } else {
                proof {
                    assert(operation_views(operations@) =~= before + Seq::<
                        FsOperationView,
                    >::empty());
                }
            }
            i += 1;
        }
        operations
    }

    /// The creation of each folder of the standard layout that the scan
    /// does not list below `root`.
    pub fn create_standard_structure(&self, root: &str, entries: &Vec<FileInfo>) -> (operations:
        Vec<FsOperation>)
        ensures
            operation_views(operations@) == Seq::new(
                absent_paths(root@, views(entries@), paths_of(standard_structure())).len(),
                |i: int|
                    FsOperationView::CreateDirAll {
                        path: joined(
                            root@,
                            absent_paths(root@, views(entries@), paths_of(standard_structure()))[i],
                        ),
                    },
            ),
    {
        let found = FolderStructure::validate_structure(root, entries);
        let ghost missing = text_views(found.missing@);
        let mut operations: Vec<FsOperation> = Vec::new();
        let mut i: usize = 0;
        while i < found.missing.len()
            invariant
                i <= found.missing.len(),
                missing == text_views(found.missing@),
                operations.len() == i,
                forall|k: int|
                    0 <= k < i ==> (#[trigger] operations@[k])@ == (FsOperationView::CreateDirAll {
                        path: joined(root@, missing[k]),
                    }),
            decreases found.missing.len() - i,
        {
            proof {
                assert(missing[i as int] == found.missing@[i as int]@);
            }
            operations.push(
                FsOperation::CreateDirAll { path: join(root, found.missing[i].as_str()) },
            );
            i += 1;
        }
        proof {
            assert(operation_views(operations@) =~= Seq::new(
                missing.len(),
                |k: int| FsOperationView::CreateDirAll { path: joined(root@, missing[k]) },
            ));
        }
        operations
    }

    /// The moves that give each file its new name within its folder. Where
    /// a path lies in no folder, nothing is to be done at all.
    pub fn rename_files(&self, files: &Vec<(String, String)>) -> (r: Result<
        Vec<FsOperation>,
        ExecutorError,
    >)
        ensures
            match r {
                Ok(operations) => rename_operations(pair_views(files@), files.len() as nat) == Ok::<
                    Seq<FsOperationView>,
                    Seq<char>,
                >(operation_views(operations@)),
                Err(ExecutorError::NoParent { path }) => rename_operations(
                    pair_views(files@),
                    files.len() as nat,
                ) == Err::<Seq<FsOperationView>, Seq<char>>(path@),
            },
    {
        let ghost pairs = pair_views(files@);
        let mut operations: Vec<FsOperation> = Vec::new();
        let mut i: usize = 0;
        proof {
            assert(operation_views(operations@) =~= Seq::<FsOperationView>::empty());
        }
        while i < files.len()
            invariant
                i <= files.len(),
                pairs == pair_views(files@),
                rename_operations(pairs, i as nat) == Ok::<Seq<FsOperationView>, Seq<char>>(
                    operation_views(operations@),
                ),
            decreases files.len() - i,
        {
            let ghost before = operation_views(operations@);
            proof {
                assert(pairs[i as int] == (files@[i as int].0@, files@[i as int].1@));
            }
            match parent(files[i].0.as_str()) {
                None => {
                    proof {
                        lemma_rename_fails(pairs, (i + 1) as nat, files.len() as nat);
                    }
                    return Err(ExecutorError::NoParent { path: files[i].0.clone() });
                },
                Some(folder) => {
                    operations.push(
                        FsOperation::Rename {
                            source: files[i].0.clone(),
                            target: join(folder.as_str(), files[i].1.as_str()),
                        },
                    );
                    proof {
                        assert(operation_views(operations@) =~= before.push(
                            FsOperationView::Rename {
                                source: pairs[i as int].0,
                                target: joined(folder@, pairs[i as int].1),
                            },
                        ));
                    }
                },
            }
            i += 1;
        }
        Ok(operations)
    }
}

} // verus!
