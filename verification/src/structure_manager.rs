//! Keeping the standard folders of a drive in place.

use vstd::prelude::*;
use crate::record_manager::text_views;
use crate::scanner::{views, FileInfo};
use crate::structure::{absent_paths, present_paths, split_by_presence};

verus! {

/// The folders that are to exist below the root of a drive.
pub open spec fn standard_folders() -> Seq<Seq<char>> {
    seq![
        "0_inbox"@,
        "0_inbox/downloads"@,
        "0_inbox/record"@,
        "0_inbox/record/screen capture"@,
        "0_inbox/record/screen record"@,
        "0_inbox/record/voice record"@,
        "1_projects"@,
        "2_assets"@,
        "2_assets/footage"@,
        "2_assets/graphic"@,
        "2_assets/photo"@,
        "2_assets/illust"@,
        "2_assets/bgm"@,
        "2_assets/sfx"@,
        "3_docs"@,
        "3_docs/profile"@,
        "3_docs/collection"@,
        "3_docs/class"@,
        "3_docs/club"@,
        "3_docs/guide"@,
        "3_docs/family"@,
        "3_docs/icon"@,
        "3_docs/meme"@,
        "4_apps"@,
        "5_gallery"@,
        "9_archive"@,
    ]
}

/// Texts as plain values.
pub open spec fn str_views(texts: Seq<&'static str>) -> Seq<Seq<char>> {
    Seq::new(texts.len(), |i: int| texts[i]@)
}

/// How much of the standard layout a scan finds.
#[derive(Debug)]
pub struct StructureValidationResult {
    pub total: usize,
    pub existing: Vec<String>,
    pub missing: Vec<String>,
}

impl StructureValidationResult {
    /// Whether no standard folder is missing.
    pub fn is_complete(&self) -> (b: bool)
        ensures
            b == (self.missing@.len() == 0),
    {
        self.missing.len() == 0
    }
}

/// Looks after the standard folders.
pub struct StructureManager;

impl StructureManager {
    /// The folders that are to exist, relative to the root.
    pub fn standard_structure() -> (folders: Vec<&'static str>)
        ensures
            str_views(folders@) == standard_folders(),
    {
        let mut folders: Vec<&'static str> = Vec::new();
        folders.push("0_inbox");
        folders.push("0_inbox/downloads");
        folders.push("0_inbox/record");
        folders.push("0_inbox/record/screen capture");
        folders.push("0_inbox/record/screen record");
        folders.push("0_inbox/record/voice record");
        folders.push("1_projects");
        folders.push("2_assets");
        folders.push("2_assets/footage");
        folders.push("2_assets/graphic");
        folders.push("2_assets/photo");
        folders.push("2_assets/illust");
        folders.push("2_assets/bgm");
        folders.push("2_assets/sfx");
        folders.push("3_docs");
        folders.push("3_docs/profile");
        folders.push("3_docs/collection");
        folders.push("3_docs/class");
        folders.push("3_docs/club");
        folders.push("3_docs/guide");
        folders.push("3_docs/family");
        folders.push("3_docs/icon");
        folders.push("3_docs/meme");
        folders.push("4_apps");
        folders.push("5_gallery");
        folders.push("9_archive");
        proof {
            assert(str_views(folders@) =~= standard_folders());
        }
        folders
    }

    /// Which of the standard folders the scan lists below `root`, and which
    /// it does not; the missing ones are those to create.
    pub fn validate_structure(root: &str, entries: &Vec<FileInfo>) -> (result:
        StructureValidationResult)
        ensures
            text_views(result.existing@) == present_paths(
                root@,
                views(entries@),
                standard_folders(),
            ),
            text_views(result.missing@) == absent_paths(
                root@,
                views(entries@),
                standard_folders(),
            ),
            result.total == result.existing@.len() + result.missing@.len(),
            result.total == standard_folders().len(),
    {
        let structure = Self::standard_structure();
        let mut paths: Vec<String> = Vec::new();
        let mut i: usize = 0;
        while i < structure.len()
            invariant
                i <= structure.len(),
                paths.len() == i,
                forall|k: int| 0 <= k < i ==> #[trigger] paths@[k]@ == structure@[k]@,
            decreases structure.len() - i,
        {
            paths.push(structure[i].to_owned());
            i += 1;
        }
        proof {
            assert(text_views(paths@) =~= str_views(structure@));
        }
        let (existing, missing) = split_by_presence(root, entries, &paths);
        let total = existing.len() + missing.len();
        StructureValidationResult { total, existing, missing }
    }
}

} // verus!
