use looker::applier::FsOperation;
use looker::executor::{ExecutionResult, Executor, ExecutorError};
use looker::gallery_manager::GalleryManager;
use looker::menu::{Menu, MenuAction};
use looker::recommender::{PlacementRecommender, Recommendation};
use looker::scanner::FileInfo;
use looker::structure::{FolderStructure, PathType, StandardPath, ValidationResult};
use looker::structure_manager::{StructureManager, StructureValidationResult};
use looker::timestamp::Timestamp;

fn stamp() -> Timestamp {
    Timestamp::new(2024, 1, 2, 3, 4, 5).unwrap()
}

fn dir(path: &str) -> FileInfo {
    FileInfo::new(path, 0, stamp(), true)
}

fn file(path: &str) -> FileInfo {
    FileInfo::new(path, 1, stamp(), false)
}

#[test]
fn standard_structure_lists_the_layout() {
    let paths = FolderStructure::get_standard_structure();
    assert_eq!(paths.len(), 26);
    assert_eq!(paths[0].path, "0_inbox");
    assert_eq!(paths[0].path_type, PathType::Inbox);
    assert_eq!(paths[3].path, "0_inbox/record/screen capture");
    assert_eq!(paths[3].path_type, PathType::RecordScreenCapture);
    assert_eq!(paths[15].path, "3_docs/plofile");
    assert_eq!(paths[24].path, "5_gollery");
    assert_eq!(paths[25].path, "9_archive");
    assert_eq!(paths[25].path_type, PathType::Archive);
    let one = StandardPath::new("x/y", PathType::Docs);
    assert_eq!(one.path, "x/y");
    assert_eq!(one.path_type, PathType::Docs);
    let folders = StructureManager::standard_structure();
    assert_eq!(folders.len(), 26);
    assert_eq!(folders[15], "3_docs/profile");
    assert_eq!(folders[18], "3_docs/club");
    assert_eq!(folders[24], "5_gallery");
}

#[test]
fn validation_splits_present_and_missing() {
    let entries = vec![dir("/d"), dir("/d/0_inbox"), dir("/d/2_assets"), dir("/d/2_assets/bgm")];
    let found: ValidationResult = FolderStructure::validate_structure("/d", &entries);
    assert_eq!(found.root, "/d");
    assert_eq!(found.existing, vec!["0_inbox", "2_assets", "2_assets/bgm"]);
    assert_eq!(found.missing.len(), 23);
    assert_eq!(found.missing[0], "0_inbox/downloads");
    assert!(!found.is_valid());
    let all: Vec<FileInfo> = FolderStructure::get_standard_structure()
        .iter()
        .map(|p| dir(&format!("/d/{}", p.path)))
        .collect();
    assert!(FolderStructure::validate_structure("/d", &all).is_valid());
    let managed: StructureValidationResult = StructureManager::validate_structure("/d", &entries);
    assert_eq!(managed.total, 26);
    assert_eq!(managed.existing, vec!["0_inbox", "2_assets", "2_assets/bgm"]);
    assert_eq!(managed.missing.len(), 23);
    assert!(!managed.is_complete());
    let every: Vec<FileInfo> = StructureManager::standard_structure()
        .iter()
        .map(|p| dir(&format!("/d/{p}")))
        .collect();
    assert!(StructureManager::validate_structure("/d", &every).is_complete());
}

#[test]
fn placement_by_extension_and_path() {
    let place = |path: &str| {
        let r: Recommendation = PlacementRecommender::recommend_placement(&file(path), "/d");
        (r.target_path, r.path_type)
    };
    assert_eq!(place("/x/a.MP4"), ("/d/2_assets/footage".to_string(), PathType::AssetsFootage));
    assert_eq!(place("/x/Illust/a.png"), ("/d/2_assets/illust".to_string(), PathType::AssetsIllust));
    assert_eq!(place("/x/design/a.jpg"), ("/d/2_assets/graphic".to_string(), PathType::AssetsGraphic));
    assert_eq!(place("/x/a.gif"), ("/d/2_assets/photo".to_string(), PathType::AssetsPhoto));
    assert_eq!(place("/x/a.svg"), ("/d/0_inbox".to_string(), PathType::Inbox));
    assert_eq!(place("/x/Music/a.mp3"), ("/d/2_assets/bgm".to_string(), PathType::AssetsBgm));
    assert_eq!(place("/x/a.wav"), ("/d/2_assets/sfx".to_string(), PathType::AssetsSfx));
    assert_eq!(place("/x/a.docx"), ("/d/3_docs".to_string(), PathType::Docs));
    assert_eq!(place("/x/a.7z"), ("/d/9_archive".to_string(), PathType::Archive));
    assert_eq!(place("/x/a"), ("/d/0_inbox".to_string(), PathType::Inbox));
    let r = PlacementRecommender::recommend_placement(&file("/x/a.mp4"), "/d");
    assert_eq!(r.reason, "動画ファイルはfootageフォルダに配置することを推奨します");
    let made = Recommendation::new("/t".to_string(), PathType::Docs, "why");
    assert_eq!((made.target_path.as_str(), made.reason.as_str()), ("/t", "why"));
    let batch = PlacementRecommender::recommend_batch(&vec![file("/x/a.mp4"), file("/x/b.txt")], "/d");
    assert_eq!(batch.len(), 2);
    assert_eq!(batch[0].file.path, "/x/a.mp4");
    assert_eq!(batch[1].recommendation.target_path, "/d/3_docs");
}

#[test]
fn recommendations_become_operations() {
    let executor = Executor::new(true);
    assert!(executor.is_dry_run());
    assert!(!Executor::new(false).is_dry_run());
    let files = vec![file("/d/0_inbox/a.mp4"), file("/d/3_docs/b.txt"), file("/c.zip")];
    let batch = PlacementRecommender::recommend_batch(&files, "/d");
    let entries = vec![dir("/d")];
    assert_eq!(
        executor.execute_recommendations(&batch, &entries),
        vec![
            FsOperation::CreateDirAll { path: "/d/2_assets".to_string() },
            FsOperation::Rename {
                source: "/d/0_inbox/a.mp4".to_string(),
                target: "/d/2_assets/footage".to_string()
            },
            FsOperation::Rename {
                source: "/d/3_docs/b.txt".to_string(),
                target: "/d/3_docs".to_string()
            },
            FsOperation::Rename { source: "/c.zip".to_string(), target: "/d/9_archive".to_string() },
        ]
    );
    let same_folder = PlacementRecommender::recommend_batch(&vec![file("/d/a.txt")], "/d");
    assert_eq!(same_folder[0].recommendation.target_path, "/d/3_docs");
    assert!(executor.execute_recommendations(&same_folder, &entries).is_empty());
}

#[test]
fn missing_standard_folders_are_created() {
    let entries: Vec<FileInfo> = FolderStructure::get_standard_structure()
        .iter()
        .filter(|p| p.path != "1_projects" && p.path != "3_docs/icon")
        .map(|p| dir(&format!("/d/{}", p.path)))
        .collect();
    assert_eq!(
        Executor::new(false).create_standard_structure("/d", &entries),
        vec![
            FsOperation::CreateDirAll { path: "/d/1_projects".to_string() },
            FsOperation::CreateDirAll { path: "/d/3_docs/icon".to_string() },
        ]
    );
}

#[test]
fn renames_stay_in_their_folder() {
    let executor = Executor::new(false);
    let files = vec![
        ("/d/a.txt".to_string(), "b.txt".to_string()),
        ("c".to_string(), "d".to_string()),
    ];
    assert_eq!(
        executor.rename_files(&files),
        Ok(vec![
            FsOperation::Rename { source: "/d/a.txt".to_string(), target: "/d/b.txt".to_string() },
            FsOperation::Rename { source: "c".to_string(), target: "d".to_string() },
        ])
    );
    let bad = vec![
        ("/d/a.txt".to_string(), "b.txt".to_string()),
        ("/".to_string(), "x".to_string()),
        ("".to_string(), "y".to_string()),
    ];
    assert_eq!(executor.rename_files(&bad), Err(ExecutorError::NoParent { path: "/".to_string() }));
    let result = ExecutionResult { moved: vec![("a".into(), "b".into())], failed: vec![] };
    assert_eq!(result.moved.len(), 1);
    assert!(result.failed.is_empty());
}

#[test]
fn project_pattern_is_date_and_project() {
    let pattern = GalleryManager::extract_project_pattern;
    assert_eq!(pattern("20240102_demo.mp4"), Some(("20240102".to_string(), "demo".to_string())));
    assert_eq!(
        pattern("20240102_my_demo_final.v2.mp4"),
        Some(("20240102".to_string(), "my_demo_final.v2".to_string()))
    );
    assert_eq!(pattern("20240102_demo"), Some(("20240102".to_string(), "demo".to_string())));
    assert_eq!(pattern("20240102_"), Some(("20240102".to_string(), String::new())));
    assert_eq!(pattern("20240102_.mp4"), Some(("20240102".to_string(), String::new())));
    assert_eq!(pattern("2024010_demo.mp4"), None);
    assert_eq!(pattern("202401023_demo.mp4"), None);
    assert_eq!(pattern("2024010a_demo.mp4"), None);
    assert_eq!(pattern("20240102demo.mp4"), None);
    assert_eq!(pattern("20240102.demo_x"), None);
    assert_eq!(pattern(""), None);
}

#[test]
fn outputs_are_matched_to_project_folders() {
    let files: Vec<String> = [
        "/d/1_projects/20240101_demo/20240102_demo.mp4",
        "/d/1_projects/20240101_demo/notes.txt",
        "/d/1_projects/20240101_demo/20240103_demo.exe",
        "/d/1_projects/big demo reel/20240104_demo.PNG",
        "/d/1_projects/20240101_demo/20240105_demo.wav",
        "/d/1_projects/other/20240106_demo.mp4",
        "/d/1_projects/20240201_clip/20240202_other.mp4",
        "/d/1_projects/x_20240301_y/20240302_y.pdf",
        "20240401_z.mp4",
        "/20240501_.mp4",
    ]
    .iter()
    .map(|s| s.to_string())
    .collect();
    let matches = GalleryManager::find_matching_outputs(&files);
    assert_eq!(
        matches,
        vec![
            (
                "20240101_demo".to_string(),
                "/d/1_projects/20240101_demo/20240105_demo.wav".to_string()
            ),
            (
                "20240104_demo".to_string(),
                "/d/1_projects/big demo reel/20240104_demo.PNG".to_string()
            ),
            (
                "20240302_y".to_string(),
                "/d/1_projects/x_20240301_y/20240302_y.pdf".to_string()
            ),
        ]
    );
    assert!(GalleryManager::find_matching_outputs(&Vec::new()).is_empty());
}

#[test]
fn menu_runs_use_default_options() {
    let options = Menu::ask_record_options();
    assert!(options.target_types.is_empty());
    assert!(options.check_misplaced);
    assert_eq!(Menu::confirmation_message(0), "変更を適用しますか？");
    assert_eq!(Menu::confirmation_message(3), "上記の変更を適用しますか？");
    assert_ne!(MenuAction::OrganizeNow, MenuAction::Exit);
    assert_ne!(MenuAction::CreateGalleryShortcuts, MenuAction::EnsureStructure);
}

#[test]
fn presence_is_by_joined_path() {
    let entries = vec![dir("/d/a"), file("/d/b"), dir("/d/c/d")];
    let paths = vec!["a".to_string(), "x".to_string(), "b".to_string(), "c".to_string(), "c/d".to_string()];
    let (there, gone) = looker::structure::split_by_presence("/d", &entries, &paths);
    assert_eq!(there, vec!["a", "b", "c/d"]);
    assert_eq!(gone, vec!["x", "c"]);
}
