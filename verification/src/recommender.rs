//! Where in the standard layout a file belongs, by its extension and by
//! words in its path.

use vstd::prelude::*;
use crate::paths::{join, joined};
use crate::scanner::{FileInfo, FileInfoView};
use crate::structure::PathType;
use crate::text::{ascii_lower, contains, find_str, is_text, to_chars, to_lower};

verus! {

/// An extension of videos.
pub open spec fn is_footage(e: Seq<char>) -> bool {
    e == "mp4"@ || e == "avi"@ || e == "mov"@ || e == "mkv"@ || e == "wmv"@ || e == "flv"@ || e
        == "webm"@ || e == "m4v"@
}

/// An extension of pictures.
pub open spec fn is_picture(e: Seq<char>) -> bool {
    e == "jpg"@ || e == "jpeg"@ || e == "png"@ || e == "gif"@ || e == "bmp"@ || e == "webp"@
}

/// An extension of sound.
pub open spec fn is_sound(e: Seq<char>) -> bool {
    e == "mp3"@ || e == "wav"@ || e == "flac"@ || e == "aac"@ || e == "ogg"@ || e == "wma"@ || e
        == "m4a"@
}

/// An extension of documents.
pub open spec fn is_document(e: Seq<char>) -> bool {
    e == "pdf"@ || e == "doc"@ || e == "docx"@ || e == "xls"@ || e == "xlsx"@ || e == "ppt"@ || e
        == "pptx"@ || e == "txt"@ || e == "md"@
}

/// An extension of archives.
pub open spec fn is_archive(e: Seq<char>) -> bool {
    e == "zip"@ || e == "rar"@ || e == "7z"@ || e == "tar"@ || e == "gz"@
}

/// The purpose of the folder for a file with the extension `e`, given in
/// small letters, and the path `path`, given in small letters.
pub open spec fn placement_of(e: Seq<char>, path: Seq<char>) -> PathType {
    if is_footage(e) {
        PathType::AssetsFootage
    } else if is_picture(e) {
        if contains(path, "illust"@) || contains(path, "illustration"@) {
            PathType::AssetsIllust
        } else if contains(path, "graphic"@) || contains(path, "design"@) {
            PathType::AssetsGraphic
        } else {
            PathType::AssetsPhoto
        }
    } else if is_sound(e) {
        if contains(path, "bgm"@) || contains(path, "music"@) {
            PathType::AssetsBgm
        } else {
            PathType::AssetsSfx
        }
    } else if is_document(e) {
        PathType::Docs
    } else if is_archive(e) {
        PathType::Archive
    } else {
        PathType::Inbox
    }
}

/// The folder that a placement names, relative to the root.
pub open spec fn placement_folder(path_type: PathType) -> Seq<char> {
    match path_type {
        PathType::AssetsFootage => "2_assets/footage"@,
        PathType::AssetsIllust => "2_assets/illust"@,
        PathType::AssetsGraphic => "2_assets/graphic"@,
        PathType::AssetsPhoto => "2_assets/photo"@,
        PathType::AssetsBgm => "2_assets/bgm"@,
        PathType::AssetsSfx => "2_assets/sfx"@,
        PathType::Docs => "3_docs"@,
        PathType::Archive => "9_archive"@,
        _ => "0_inbox"@,
    }
}

/// The words that explain a placement.
pub open spec fn placement_reason(path_type: PathType) -> Seq<char> {
    match path_type {
        PathType::AssetsFootage => "動画ファイルはfootageフォルダに配置することを推奨します"@,
        PathType::AssetsIllust => "イラストファイルはillustフォルダに配置することを推奨します"@,
        PathType::AssetsGraphic => "グラフィックファイルはgraphicフォルダに配置することを推奨します"@,
        PathType::AssetsPhoto => "写真ファイルはphotoフォルダに配置することを推奨します"@,
        PathType::AssetsBgm => "BGMファイルはbgmフォルダに配置することを推奨します"@,
        PathType::AssetsSfx => "効果音ファイルはsfxフォルダに配置することを推奨します"@,
        PathType::Docs => "ドキュメントファイルは3_docsフォルダに配置することを推奨します"@,
        PathType::Archive => "アーカイブファイルは9_archiveフォルダに配置することを推奨します"@,
        _ => "未分類ファイルは0_inboxフォルダに配置することを推奨します"@,
    }
}

/// Where a file belongs, and why.
#[derive(Debug)]
pub struct Recommendation {
    pub target_path: String,
    pub path_type: PathType,
    pub reason: String,
}

/// A recommendation as plain values.
pub struct RecommendationView {
    pub target_path: Seq<char>,
    pub path_type: PathType,
    pub reason: Seq<char>,
}

impl View for Recommendation {
    type V = RecommendationView;

    open spec fn view(&self) -> RecommendationView {
        RecommendationView {
            target_path: self.target_path@,
            path_type: self.path_type,
            reason: self.reason@,
        }
    }
}

impl Recommendation {
    /// The recommendation with these parts.
    pub fn new(target_path: String, path_type: PathType, reason: &str) -> (r: Self)
        ensures
            r@ == (RecommendationView { target_path: target_path@, path_type, reason: reason@ }),
    {
        Recommendation { target_path, path_type, reason: reason.to_owned() }
    }
}

/// The recommendation for a file below `root`.
pub open spec fn recommendation_of(file: FileInfoView, root: Seq<char>) -> RecommendationView {
    let path_type = placement_of(file.extension, ascii_lower(file.path));
    RecommendationView {
        target_path: joined(root, placement_folder(path_type)),
        path_type,
        reason: placement_reason(path_type),
    }
}

/// A file with the recommendation for it.
#[derive(Debug)]
pub struct FileRecommendation {
    pub file: FileInfo,
    pub recommendation: Recommendation,
}

fn placement(e: &Vec<char>, path: &Vec<char>) -> (r: PathType)
    ensures
        r == placement_of(e@, path@),
{
    if is_text(e, "mp4") || is_text(e, "avi") || is_text(e, "mov") || is_text(e, "mkv")
        || is_text(e, "wmv") || is_text(e, "flv") || is_text(e, "webm") || is_text(e, "m4v") {
        PathType::AssetsFootage
    } else if is_text(e, "jpg") || is_text(e, "jpeg") || is_text(e, "png") || is_text(e, "gif")
        || is_text(e, "bmp") || is_text(e, "webp") {
        if find_str(path, "illust") || find_str(path, "illustration") {
            PathType::AssetsIllust
        } else if find_str(path, "graphic") || find_str(path, "design") {
            PathType::AssetsGraphic
        } else {
            PathType::AssetsPhoto
        }
    } else if is_text(e, "mp3") || is_text(e, "wav") || is_text(e, "flac") || is_text(e, "aac")
        || is_text(e, "ogg") || is_text(e, "wma") || is_text(e, "m4a") {
        if find_str(path, "bgm") || find_str(path, "music") {
            PathType::AssetsBgm
        } else {
            PathType::AssetsSfx
        }
    } else if is_text(e, "pdf") || is_text(e, "doc") || is_text(e, "docx") || is_text(e, "xls")
        || is_text(e, "xlsx") || is_text(e, "ppt") || is_text(e, "pptx") || is_text(e, "txt")
        || is_text(e, "md") {
        PathType::Docs
    } else if is_text(e, "zip") || is_text(e, "rar") || is_text(e, "7z") || is_text(e, "tar")
        || is_text(e, "gz") {
        PathType::Archive
    } else {
        PathType::Inbox
    }
}

fn folder_of(path_type: PathType) -> (r: &'static str)
    ensures
        r@ == placement_folder(path_type),
{
    match path_type {
        PathType::AssetsFootage => "2_assets/footage",
        PathType::AssetsIllust => "2_assets/illust",
        PathType::AssetsGraphic => "2_assets/graphic",
        PathType::AssetsPhoto => "2_assets/photo",
        PathType::AssetsBgm => "2_assets/bgm",
        PathType::AssetsSfx => "2_assets/sfx",
        PathType::Docs => "3_docs",
        PathType::Archive => "9_archive",
        _ => "0_inbox",
    }
}

fn reason_of(path_type: PathType) -> (r: &'static str)
    ensures
        r@ == placement_reason(path_type),
{
    match path_type {
        PathType::AssetsFootage => "動画ファイルはfootageフォルダに配置することを推奨します",
        PathType::AssetsIllust => "イラストファイルはillustフォルダに配置することを推奨します",
        PathType::AssetsGraphic => "グラフィックファイルはgraphicフォルダに配置することを推奨します",
        PathType::AssetsPhoto => "写真ファイルはphotoフォルダに配置することを推奨します",
        PathType::AssetsBgm => "BGMファイルはbgmフォルダに配置することを推奨します",
        PathType::AssetsSfx => "効果音ファイルはsfxフォルダに配置することを推奨します",
        PathType::Docs => "ドキュメントファイルは3_docsフォルダに配置することを推奨します",
        PathType::Archive => "アーカイブファイルは9_archiveフォルダに配置することを推奨します",
        _ => "未分類ファイルは0_inboxフォルダに配置することを推奨します",
    }
}

/// Recommends folders of the standard layout.
pub struct PlacementRecommender;

impl PlacementRecommender {
    /// The folder of the standard layout below `root` in which `file`
    /// belongs, and why.
    pub fn recommend_placement(file: &FileInfo, root: &str) -> (r: Recommendation)
        ensures
            r@ == recommendation_of(file@, root@),
    {
        let extension = to_chars(file.extension.as_str());
        let path = to_lower(&to_chars(file.path.as_str()));
        let path_type = placement(&extension, &path);
        Recommendation::new(join(root, folder_of(path_type)), path_type, reason_of(path_type))
    }

    /// The recommendation for each of `files`, in order.
    pub fn recommend_batch(files: &Vec<FileInfo>, root: &str) -> (batch: Vec<FileRecommendation>)
        ensures
            batch.len() == files.len(),
            forall|i: int|
                0 <= i < files.len() ==> (#[trigger] batch@[i]).file@ == files@[i]@
                    && batch@[i].recommendation@ == recommendation_of(files@[i]@, root@),
    {
        let mut batch: Vec<FileRecommendation> = Vec::new();
        let mut i: usize = 0;
        while i < files.len()
            invariant
                i <= files.len(),
                batch.len() == i,
                forall|k: int|
                    0 <= k < i ==> (#[trigger] batch@[k]).file@ == files@[k]@
                        && batch@[k].recommendation@ == recommendation_of(files@[k]@, root@),
            decreases files.len() - i,
        {
            let recommendation = Self::recommend_placement(&files[i], root);
            batch.push(FileRecommendation { file: files[i].clone(), recommendation });
            i += 1;
        }
        batch
    }
}

} // verus!
