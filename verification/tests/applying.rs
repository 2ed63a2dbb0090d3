use looker::applier::{ApplyError, FsOperation};
use looker::record_manager::{
    ActionType, RecordFileAction, RecordManager, RecordOptions, RecordOrganizationPlan, RecordType,
};
use looker::scanner::FileInfo;
use looker::timestamp::Timestamp;

const ROOT: &str = "/data/record";

fn at(year: i32, month: u32, day: u32, hour: u32, minute: u32, second: u32) -> Timestamp {
    Timestamp::new(year, month, day, hour, minute, second).unwrap()
}

fn dir(path: &str) -> FileInfo {
    FileInfo::new(path, 0, at(2024, 1, 1, 0, 0, 0), true)
}

fn file(path: &str, modified: Timestamp) -> FileInfo {
    FileInfo::new(path, 10, modified, false)
}

fn action(source: &str, target: &str) -> RecordFileAction {
    RecordFileAction {
        source: source.to_string(),
        target: target.to_string(),
        action_type: ActionType::Move,
    }
}

fn create(path: &str) -> FsOperation {
    FsOperation::CreateDirAll { path: path.to_string() }
}

fn rename(source: &str, target: &str) -> FsOperation {
    FsOperation::Rename { source: source.to_string(), target: target.to_string() }
}

fn remove(path: &str) -> FsOperation {
    FsOperation::RemoveDir { path: path.to_string() }
}

/// What a scan lists after the operations, for scans that list a directory
/// before what is in it.
fn carry_out(entries: &[FileInfo], operations: &[FsOperation]) -> Vec<FileInfo> {
    let mut now: Vec<FileInfo> = entries.to_vec();
    for operation in operations {
        match operation {
            FsOperation::CreateDirAll { path } => {
                let mut missing = Vec::new();
                let mut current = Some(path.clone());
                while let Some(p) = current {
                    if p.is_empty() || p == "/" || now.iter().any(|e| e.path == p) {
                        break;
                    }
                    current = looker::paths::parent(&p);
                    missing.push(p);
                }
                for p in missing.into_iter().rev() {
                    now.push(dir(&p));
                }
            }
            FsOperation::Rename { source, target } => {
                assert!(!now.iter().any(|e| e.path == *target), "overwrites {target}");
                let parent = looker::paths::parent(target).unwrap();
                assert!(now.iter().any(|e| e.is_dir && e.path == parent), "no folder {parent}");
                let at = now.iter().position(|e| e.path == *source).expect("source is there");
                let old = now.remove(at);
                now.push(FileInfo::new(target, old.size, old.modified, false));
            }
            FsOperation::RemoveDir { path } => {
                let prefix = format!("{path}/");
                assert!(!now.iter().any(|e| e.path.starts_with(&prefix)), "{path} is not empty");
                let at = now.iter().position(|e| e.is_dir && e.path == *path).expect("is there");
                now.remove(at);
            }
        }
    }
    now.sort_by(|a, b| a.path.cmp(&b.path));
    now
}

#[test]
fn duplicate_target_is_refused() {
    let mut plan = RecordOrganizationPlan::new(ROOT.to_string());
    plan.actions.push(action("/data/record/a.png", "/data/record/x/t.png"));
    plan.actions.push(action("/data/record/b.png", "/data/record/x/u.png"));
    plan.actions.push(action("/data/record/c.png", "/data/record/x/t.png"));
    let entries = vec![dir(ROOT)];
    assert_eq!(
        RecordManager::apply(&plan, &entries),
        Err(ApplyError::DuplicateTarget { target: "/data/record/x/t.png".to_string() })
    );
}

#[test]
fn listed_target_is_refused() {
    let mut plan = RecordOrganizationPlan::new(ROOT.to_string());
    plan.actions.push(action("/data/record/a.png", "/data/record/x/t.png"));
    plan.actions.push(action("/data/record/b.png", "/data/record/x/u.png"));
    let entries = vec![dir(ROOT), file("/data/record/x/u.png", at(2024, 1, 1, 0, 0, 0))];
    assert_eq!(
        RecordManager::apply(&plan, &entries),
        Err(ApplyError::TargetExists {
            source: "/data/record/b.png".to_string(),
            target: "/data/record/x/u.png".to_string()
        })
    );
}

#[test]
fn first_conflict_in_order_is_reported() {
    let mut plan = RecordOrganizationPlan::new(ROOT.to_string());
    plan.actions.push(action("/data/record/a.png", "/data/record/x/t.png"));
    plan.actions.push(action("/data/record/b.png", "/data/record/x/u.png"));
    plan.actions.push(action("/data/record/c.png", "/data/record/x/t.png"));
    let entries = vec![dir(ROOT), file("/data/record/x/u.png", at(2024, 1, 1, 0, 0, 0))];
    assert_eq!(
        RecordManager::apply(&plan, &entries),
        Err(ApplyError::TargetExists {
            source: "/data/record/b.png".to_string(),
            target: "/data/record/x/u.png".to_string()
        })
    );
    assert_eq!(
        RecordManager::check_conflicts(&plan, &entries),
        Err(ApplyError::TargetExists {
            source: "/data/record/b.png".to_string(),
            target: "/data/record/x/u.png".to_string()
        })
    );
    assert_eq!(RecordManager::check_conflicts(&RecordOrganizationPlan::new(ROOT.to_string()), &entries), Ok(()));
    let both = vec![dir(ROOT), file("/data/record/x/t.png", at(2024, 1, 1, 0, 0, 0))];
    assert_eq!(
        RecordManager::apply(&plan, &both),
        Err(ApplyError::TargetExists {
            source: "/data/record/a.png".to_string(),
            target: "/data/record/x/t.png".to_string()
        })
    );
}

#[test]
fn folders_first_then_moves_in_order() {
    let mut plan = RecordOrganizationPlan::new(ROOT.to_string());
    plan.register_folder("/data/record/x", false);
    plan.register_folder("/data/record/a", false);
    plan.register_folder("/data/record/x", false);
    plan.register_folder("/data/record/there", true);
    assert_eq!(plan.required_folders, vec!["/data/record/a", "/data/record/x"]);
    plan.actions.push(action("/data/record/1.png", "/data/record/x/1.png"));
    plan.actions.push(action("/data/record/2.png", "/data/record/y/2.png"));
    plan.actions.push(action("/data/record/3.png", "3.png"));
    plan.actions.push(action("/data/record/4.png", ""));
    let entries = vec![dir(ROOT), dir("/data/record/y")];
    assert_eq!(
        RecordManager::apply(&plan, &entries),
        Ok(vec![
            create("/data/record/a"),
            create("/data/record/x"),
            create("/data/record/x"),
            rename("/data/record/1.png", "/data/record/x/1.png"),
            rename("/data/record/2.png", "/data/record/y/2.png"),
            create(""),
            rename("/data/record/3.png", "3.png"),
            rename("/data/record/4.png", ""),
        ])
    );
    assert!(!plan.is_empty());
    assert!(RecordOrganizationPlan::new(ROOT.to_string()).is_empty());
    assert_eq!(RecordManager::apply(&RecordOrganizationPlan::new(ROOT.to_string()), &entries), Ok(vec![]));
}

#[test]
fn empty_stray_folders_are_removed_deepest_first() {
    let stamp = at(2024, 1, 1, 0, 0, 0);
    let entries = vec![
        dir(ROOT),
        dir("/data/record/misc"),
        dir("/data/record/misc/a"),
        dir("/data/record/misc/a/b"),
        dir("/data/record/misc/c"),
        dir("/data/record/keep"),
        dir("/data/record/keep/empty"),
        dir("/data/record/keep/full"),
        file("/data/record/keep/full/x.bin", stamp),
        dir("/data/record/screen capture"),
        dir("/data/record/screen capture/202401"),
        dir("/data/record/voice record"),
        file("/data/record/loose.bin", stamp),
    ];
    assert_eq!(
        RecordManager::cleanup_non_standard_empty_dirs(ROOT, &entries),
        vec![
            remove("/data/record/misc/c"),
            remove("/data/record/misc/a/b"),
            remove("/data/record/misc/a"),
            remove("/data/record/misc"),
            remove("/data/record/keep/empty"),
        ]
    );
    let mut operations = vec![create("x")];
    assert!(RecordManager::remove_empty_dirs_recursive("/data/record/misc/a", &entries, &mut operations));
    assert_eq!(
        operations,
        vec![create("x"), remove("/data/record/misc/a/b"), remove("/data/record/misc/a")]
    );
    let mut none = Vec::new();
    assert!(!RecordManager::remove_empty_dirs_recursive("/data/record/keep", &entries, &mut none));
    assert_eq!(none, vec![remove("/data/record/keep/empty")]);
    let mut absent = Vec::new();
    assert!(!RecordManager::remove_empty_dirs_recursive("/data/record/nowhere", &entries, &mut absent));
    assert!(absent.is_empty());
    let after = carry_out(&entries, &RecordManager::cleanup_non_standard_empty_dirs(ROOT, &entries));
    assert!(RecordManager::cleanup_non_standard_empty_dirs(ROOT, &after).is_empty());
}

fn messy_tree() -> Vec<FileInfo> {
    vec![
        dir(ROOT),
        file("/data/record/photo.png", at(2024, 3, 5, 10, 20, 30)),
        file("/data/record/twin.png", at(2024, 3, 5, 10, 20, 30)),
        file("/data/record/notes.txt", at(2021, 7, 1, 1, 1, 1)),
        file("/data/record/README", at(2024, 5, 5, 5, 5, 5)),
        dir("/data/record/screen capture"),
        file("/data/record/screen capture/20230101000000_screen-capture.wav", at(2023, 1, 1, 0, 0, 0)),
        file("/data/record/screen capture/20240305102030_screen-capture.png", at(2024, 3, 5, 10, 20, 30)),
        dir("/data/record/screen capture/202403"),
        file(
            "/data/record/screen capture/202403/20240305102030_screen-capture.png",
            at(2024, 3, 5, 10, 20, 30),
        ),
        file(
            "/data/record/screen capture/202403/20240305102030_screen-capture-2.png",
            at(2024, 3, 5, 10, 20, 30),
        ),
        file("/data/record/screen capture/202403/holiday.jpg", at(2024, 3, 9, 9, 9, 9)),
        file("/data/record/screen capture/202403/talk.mp3", at(2022, 2, 2, 2, 2, 2)),
        dir("/data/record/screen record"),
        dir("/data/record/screen record/202301"),
        file("/data/record/screen record/202301/old.mp4", at(2023, 1, 15, 8, 0, 1)),
        file(
            "/data/record/screen record/202301/20230115080001_voice-record.mp4",
            at(2023, 1, 15, 8, 0, 1),
        ),
        dir("/data/record/misc"),
        file("/data/record/misc/clip.mov", at(2024, 6, 7, 1, 2, 3)),
        dir("/data/record/misc/deep"),
        file("/data/record/misc/deep/20240607010203_screen-record.mov", at(2024, 6, 7, 1, 2, 3)),
        file("/data/record/misc/deep/memo voice.dat", at(2024, 6, 7, 1, 2, 3)),
        dir("/data/record/empty"),
        dir("/data/record/empty/inner"),
    ]
}

fn plan_apply_rescan(entries: &[FileInfo], options: &RecordOptions, year: i32) -> Vec<FileInfo> {
    let entries = entries.to_vec();
    let plan = RecordManager::plan(ROOT, options, &entries, year).unwrap();
    let operations = RecordManager::apply(&plan, &entries).unwrap();
    let middle = carry_out(&entries, &operations);
    let tidy = RecordManager::cleanup_non_standard_empty_dirs(ROOT, &middle);
    carry_out(&middle, &tidy)
}

#[test]
fn planning_again_after_applying_finds_nothing() {
    for check_misplaced in [true, false] {
        for types in [
            vec![],
            vec![RecordType::ScreenCapture],
            vec![RecordType::VoiceRecord, RecordType::ScreenRecord],
        ] {
            let options = RecordOptions { target_types: types, check_misplaced };
            let after = plan_apply_rescan(&messy_tree(), &options, 2024);
            let again = RecordManager::plan(ROOT, &options, &after, 2024).unwrap();
            assert!(again.is_empty(), "{:?} {:?}", options, again);
            assert_eq!(
                after.iter().filter(|e| !e.is_dir).count(),
                messy_tree().iter().filter(|e| !e.is_dir).count()
            );
        }
    }
}

#[test]
fn messy_tree_is_put_in_order() {
    let after = plan_apply_rescan(&messy_tree(), &RecordOptions::default(), 2024);
    let paths: Vec<&str> = after.iter().map(|e| e.path.as_str()).collect();
    assert_eq!(
        paths,
        vec![
            "/data/record",
            "/data/record/screen capture",
            "/data/record/screen capture/2021",
            "/data/record/screen capture/2021/202107",
            "/data/record/screen capture/2021/202107/20210701010101_screen-capture.txt",
            "/data/record/screen capture/202403",
            "/data/record/screen capture/202403/20240305102030_screen-capture-2.png",
            "/data/record/screen capture/202403/20240305102030_screen-capture-3.png",
            "/data/record/screen capture/202403/20240305102030_screen-capture-4.png",
            "/data/record/screen capture/202403/20240305102030_screen-capture-5.png",
            "/data/record/screen capture/202403/20240305102030_screen-capture.png",
            "/data/record/screen capture/202403/20240309090909_screen-capture.jpg",
            "/data/record/screen capture/202405",
            "/data/record/screen capture/202405/20240505050505_screen-capture",
            "/data/record/screen record",
            "/data/record/screen record/2023",
            "/data/record/screen record/2023/202301",
            "/data/record/screen record/2023/202301/20230115080001_screen-record-2.mp4",
            "/data/record/screen record/2023/202301/20230115080001_screen-record.mp4",
            "/data/record/screen record/202301",
            "/data/record/screen record/202406",
            "/data/record/screen record/202406/20240607010203_screen-record-2.mov",
            "/data/record/screen record/202406/20240607010203_screen-record.mov",
            "/data/record/voice record",
            "/data/record/voice record/2022",
            "/data/record/voice record/2022/202202",
            "/data/record/voice record/2022/202202/20220202020202_voice-record.mp3",
            "/data/record/voice record/2023",
            "/data/record/voice record/2023/202301",
            "/data/record/voice record/2023/202301/20230101000000_voice-record.wav",
            "/data/record/voice record/202406",
            "/data/record/voice record/202406/20240607010203_voice-record.dat",
        ]
    );
}

#[test]
fn plans_overwrite_nothing() {
    let entries = messy_tree();
    let plan = RecordManager::plan(ROOT, &RecordOptions::default(), &entries, 2024).unwrap();
    assert_eq!(plan.actions.len(), 13);
    for (i, a) in plan.actions.iter().enumerate() {
        assert!(!entries.iter().any(|e| e.path == a.target), "{}", a.target);
        assert!(entries.iter().any(|e| !e.is_dir && e.path == a.source), "{}", a.source);
        for b in &plan.actions[..i] {
            assert_ne!(a.target, b.target);
            assert_ne!(a.source, b.source);
            assert!((&b.source, &b.target) < (&a.source, &a.target));
        }
    }
    let mut folders = plan.required_folders.clone();
    folders.sort();
    folders.dedup();
    assert_eq!(folders, plan.required_folders);
    assert!(RecordManager::apply(&plan, &entries).is_ok());
}

#[test]
fn sorting_keeps_order_of_equal_actions() {
    let mut actions = vec![
        RecordFileAction { source: "b".into(), target: "x".into(), action_type: ActionType::Move },
        RecordFileAction { source: "a".into(), target: "z".into(), action_type: ActionType::Rename },
        RecordFileAction { source: "a".into(), target: "y".into(), action_type: ActionType::Move },
        RecordFileAction {
            source: "a".into(),
            target: "z".into(),
            action_type: ActionType::MoveToCorrectLocation,
        },
    ];
    RecordManager::sort_actions(&mut actions);
    let shown: Vec<(String, String, ActionType)> =
        actions.iter().map(|a| (a.source.clone(), a.target.clone(), a.action_type)).collect();
    assert_eq!(
        shown,
        vec![
            ("a".to_string(), "y".to_string(), ActionType::Move),
            ("a".to_string(), "z".to_string(), ActionType::Rename),
            ("a".to_string(), "z".to_string(), ActionType::MoveToCorrectLocation),
            ("b".to_string(), "x".to_string(), ActionType::Move),
        ]
    );
}
