//! The standard layout of a drive: the folders that are expected below its
//! root, and which of them a scan finds.

use vstd::prelude::*;
use crate::paths::{join, joined};
use crate::record_manager::text_views;
use crate::scanner::{listed, views, DriveScanner, FileInfo, FileInfoView};

verus! {

/// What a standard folder is for.
#[derive(Clone, Copy, Debug, PartialEq, Eq, Structural)]
pub enum PathType {
    Inbox,
    InboxDownloads,
    InboxRecord,
    RecordScreenCapture,
    RecordScreenRecord,
    RecordVoice,
    Projects,
    Assets,
    AssetsFootage,
    AssetsGraphic,
    AssetsPhoto,
    AssetsIllust,
    AssetsBgm,
    AssetsSfx,
    Docs,
    DocsPlofile,
    DocsCollection,
    DocsClass,
    DocsCclub,
    DocsGuide,
    DocsFamily,
    DocsIcon,
    DocsMeme,
    Apps,
    Gallery,
    Archive,
}

/// One folder of the standard layout, relative to the root.
#[derive(Debug)]
pub struct StandardPath {
    pub path: String,
    pub path_type: PathType,
}

/// A standard folder as plain values.
pub struct StandardPathView {
    pub path: Seq<char>,
    pub path_type: PathType,
}

impl View for StandardPath {
    type V = StandardPathView;

    open spec fn view(&self) -> StandardPathView {
        StandardPathView { path: self.path@, path_type: self.path_type }
    }
}

impl Clone for StandardPath {
    fn clone(&self) -> (r: Self)
        ensures
            r@ == self@,
    {
        StandardPath { path: self.path.clone(), path_type: self.path_type }
    }
}

impl StandardPath {
    /// The standard folder with this path and purpose.
    pub fn new(path: &str, path_type: PathType) -> (r: Self)
        ensures
            r@ == (StandardPathView { path: path@, path_type }),
    {
        StandardPath { path: path.to_owned(), path_type }
    }
}

/// Standard folders as plain values.
pub open spec fn standard_path_views(paths: Seq<StandardPath>) -> Seq<StandardPathView> {
    Seq::new(paths.len(), |i: int| paths[i]@)
}

/// The standard layout.
pub open spec fn standard_structure() -> Seq<StandardPathView> {
    seq![
        StandardPathView { path: "0_inbox"@, path_type: PathType::Inbox },
        StandardPathView { path: "0_inbox/downloads"@, path_type: PathType::InboxDownloads },
        StandardPathView { path: "0_inbox/record"@, path_type: PathType::InboxRecord },
        StandardPathView { path: "0_inbox/record/screen capture"@, path_type: PathType::RecordScreenCapture },
        StandardPathView { path: "0_inbox/record/screen record"@, path_type: PathType::RecordScreenRecord },
        StandardPathView { path: "0_inbox/record/voice record"@, path_type: PathType::RecordVoice },
        StandardPathView { path: "1_projects"@, path_type: PathType::Projects },
        StandardPathView { path: "2_assets"@, path_type: PathType::Assets },
        StandardPathView { path: "2_assets/footage"@, path_type: PathType::AssetsFootage },
        StandardPathView { path: "2_assets/graphic"@, path_type: PathType::AssetsGraphic },
        StandardPathView { path: "2_assets/photo"@, path_type: PathType::AssetsPhoto },
        StandardPathView { path: "2_assets/illust"@, path_type: PathType::AssetsIllust },
        StandardPathView { path: "2_assets/bgm"@, path_type: PathType::AssetsBgm },
        StandardPathView { path: "2_assets/sfx"@, path_type: PathType::AssetsSfx },
        StandardPathView { path: "3_docs"@, path_type: PathType::Docs },
        StandardPathView { path: "3_docs/plofile"@, path_type: PathType::DocsPlofile },
        StandardPathView { path: "3_docs/collection"@, path_type: PathType::DocsCollection },
        StandardPathView { path: "3_docs/class"@, path_type: PathType::DocsClass },
        StandardPathView { path: "3_docs/cclub"@, path_type: PathType::DocsCclub },
        StandardPathView { path: "3_docs/guide"@, path_type: PathType::DocsGuide },
        StandardPathView { path: "3_docs/family"@, path_type: PathType::DocsFamily },
        StandardPathView { path: "3_docs/icon"@, path_type: PathType::DocsIcon },
        StandardPathView { path: "3_docs/meme"@, path_type: PathType::DocsMeme },
        StandardPathView { path: "4_apps"@, path_type: PathType::Apps },
        StandardPathView { path: "5_gollery"@, path_type: PathType::Gallery },
        StandardPathView { path: "9_archive"@, path_type: PathType::Archive },
    ]
}

/// Those of `paths` that the scan lists below `root`, in order.
pub open spec fn present_paths(
    root: Seq<char>,
    entries: Seq<FileInfoView>,
    paths: Seq<Seq<char>>,
) -> Seq<Seq<char>> {
    paths.filter(|path: Seq<char>| listed(entries, joined(root, path)))
}

/// Those of `paths` that the scan does not list below `root`, in order.
pub open spec fn absent_paths(
    root: Seq<char>,
    entries: Seq<FileInfoView>,
    paths: Seq<Seq<char>>,
) -> Seq<Seq<char>> {
    paths.filter(|path: Seq<char>| !listed(entries, joined(root, path)))
}

/// The paths of standard folders.
pub open spec fn paths_of(structure: Seq<StandardPathView>) -> Seq<Seq<char>> {
    Seq::new(structure.len(), |i: int| structure[i].path)
}

/// Splits `paths` into those that the scan lists below `root` and those
/// that it does not.
pub fn split_by_presence(root: &str, entries: &Vec<FileInfo>, paths: &Vec<String>) -> (r: (
    Vec<String>,
    Vec<String>,
))
    ensures
        text_views(r.0@) == present_paths(root@, views(entries@), text_views(paths@)),
        text_views(r.1@) == absent_paths(root@, views(entries@), text_views(paths@)),
        r.0.len() + r.1.len() == paths.len(),
{
    let ghost all = text_views(paths@);
    let ghost there = |path: Seq<char>| listed(views(entries@), joined(root@, path));
    let ghost gone = |path: Seq<char>| !listed(views(entries@), joined(root@, path));
    let mut existing: Vec<String> = Vec::new();
    let mut missing: Vec<String> = Vec::new();
    let mut i: usize = 0;
    proof {
        assert(all.take(0) =~= Seq::<Seq<char>>::empty());
        assert(text_views(existing@) =~= all.take(0).filter(there));
        assert(text_views(missing@) =~= all.take(0).filter(gone));
    }
    while i < paths.len()
        invariant
            i <= paths.len(),
            all == text_views(paths@),
            there == |path: Seq<char>| listed(views(entries@), joined(root@, path)),
            gone == |path: Seq<char>| !listed(views(entries@), joined(root@, path)),
            text_views(existing@) == all.take(i as int).filter(there),
            text_views(missing@) == all.take(i as int).filter(gone),
            existing.len() + missing.len() == i,
        decreases paths.len() - i,
    {
        let ghost existing_before = text_views(existing@);
        let ghost missing_before = text_views(missing@);
        proof {
            crate::scanner::lemma_filter_step(all, there, i as int);
            crate::scanner::lemma_filter_step(all, gone, i as int);
        }
        let full = join(root, paths[i].as_str());
        if DriveScanner::has_path(entries, full.as_str()) {
            existing.push(paths[i].clone());
            proof {
                assert(text_views(existing@) =~= existing_before.push(all[i as int]));
            }
        } else {
            missing.push(paths[i].clone());
            proof {
                assert(text_views(missing@) =~= missing_before.push(all[i as int]));
            }
        }
        i += 1;
    }
    proof {
        assert(all.take(paths.len() as int) =~= all);
    }
    (existing, missing)
}

/// Which standard folders a scan finds below a root.
#[derive(Debug)]
pub struct ValidationResult {
    pub missing: Vec<String>,
    pub existing: Vec<String>,
    pub root: String,
}

impl ValidationResult {
    /// Whether no standard folder is missing.
    pub fn is_valid(&self) -> (b: bool)
        ensures
            b == (self.missing@.len() == 0),
    {
        self.missing.len() == 0
    }
}

/// The standard layout of a drive.
pub struct FolderStructure;

impl FolderStructure {
    /// The folders of the standard layout, relative to the root.
    pub fn get_standard_structure() -> (paths: Vec<StandardPath>)
        ensures
            standard_path_views(paths@) == standard_structure(),
    {
        let mut paths: Vec<StandardPath> = Vec::new();
        paths.push(StandardPath::new("0_inbox", PathType::Inbox));
        paths.push(StandardPath::new("0_inbox/downloads", PathType::InboxDownloads));
        paths.push(StandardPath::new("0_inbox/record", PathType::InboxRecord));
        paths.push(StandardPath::new("0_inbox/record/screen capture", PathType::RecordScreenCapture));
        paths.push(StandardPath::new("0_inbox/record/screen record", PathType::RecordScreenRecord));
        paths.push(StandardPath::new("0_inbox/record/voice record", PathType::RecordVoice));
        paths.push(StandardPath::new("1_projects", PathType::Projects));
        paths.push(StandardPath::new("2_assets", PathType::Assets));
        paths.push(StandardPath::new("2_assets/footage", PathType::AssetsFootage));
        paths.push(StandardPath::new("2_assets/graphic", PathType::AssetsGraphic));
        paths.push(StandardPath::new("2_assets/photo", PathType::AssetsPhoto));
        paths.push(StandardPath::new("2_assets/illust", PathType::AssetsIllust));
        paths.push(StandardPath::new("2_assets/bgm", PathType::AssetsBgm));
        paths.push(StandardPath::new("2_assets/sfx", PathType::AssetsSfx));
        paths.push(StandardPath::new("3_docs", PathType::Docs));
        paths.push(StandardPath::new("3_docs/plofile", PathType::DocsPlofile));
        paths.push(StandardPath::new("3_docs/collection", PathType::DocsCollection));
        paths.push(StandardPath::new("3_docs/class", PathType::DocsClass));
        paths.push(StandardPath::new("3_docs/cclub", PathType::DocsCclub));
        paths.push(StandardPath::new("3_docs/guide", PathType::DocsGuide));
        paths.push(StandardPath::new("3_docs/family", PathType::DocsFamily));
        paths.push(StandardPath::new("3_docs/icon", PathType::DocsIcon));
        paths.push(StandardPath::new("3_docs/meme", PathType::DocsMeme));
        paths.push(StandardPath::new("4_apps", PathType::Apps));
        paths.push(StandardPath::new("5_gollery", PathType::Gallery));
        paths.push(StandardPath::new("9_archive", PathType::Archive));
        proof {
            assert(standard_path_views(paths@) =~= standard_structure());
        }
        paths
    }

    /// Which folders of the standard layout the scan lists below `root`,
    /// and which it does not.
    pub fn validate_structure(root: &str, entries: &Vec<FileInfo>) -> (result: ValidationResult)
        ensures
            result.root@ == root@,
            text_views(result.existing@) == present_paths(
                root@,
                views(entries@),
                paths_of(standard_structure()),
            ),
            text_views(result.missing@) == absent_paths(
                root@,
                views(entries@),
                paths_of(standard_structure()),
            ),
    {
        let structure = Self::get_standard_structure();
        let mut paths: Vec<String> = Vec::new();
        let mut i: usize = 0;
        while i < structure.len()
            invariant
                i <= structure.len(),
                paths.len() == i,
                forall|k: int| 0 <= k < i ==> #[trigger] paths@[k]@ == structure@[k]@.path,
            decreases structure.len() - i,
        {
            paths.push(structure[i].path.clone());
            i += 1;
        }
        proof {
            assert(text_views(paths@) =~= paths_of(standard_path_views(structure@)));
        }
        let (existing, missing) = split_by_presence(root, entries, &paths);
        ValidationResult { missing, existing, root: root.to_owned() }
    }
}

} // verus!
