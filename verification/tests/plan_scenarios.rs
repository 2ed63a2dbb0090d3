use looker::applier::FsOperation;
use looker::record_manager::{
    ActionType, RecordFileAction, RecordManager, RecordOptions, RecordOrganizationPlan, RecordType,
};
use looker::scanner::FileInfo;
use looker::timestamp::Timestamp;

const ROOT: &str = "/data/record";

fn at(year: i32, month: u32, day: u32, hour: u32, minute: u32, second: u32) -> Timestamp {
    Timestamp::new(year, month, day, hour, minute, second).unwrap()
}

fn dir(path: &str) -> FileInfo {
    FileInfo::new(path, 0, at(2024, 1, 1, 0, 0, 0), true)
}

fn file(path: &str, modified: Timestamp) -> FileInfo {
    FileInfo::new(path, 10, modified, false)
}

fn pairs(plan: &RecordOrganizationPlan) -> Vec<(String, String, ActionType)> {
    plan.actions.iter().map(|a| (a.source.clone(), a.target.clone(), a.action_type)).collect()
}

#[test]
fn photo_in_root_is_renamed_into_month_folder() {
    let entries = vec![dir(ROOT), file("/data/record/photo.png", at(2024, 3, 5, 10, 20, 30))];
    let plan = RecordManager::plan(ROOT, &RecordOptions::default(), &entries, 2024).unwrap();
    assert_eq!(
        plan.required_folders,
        vec![
            "/data/record/screen capture".to_string(),
            "/data/record/screen capture/202403".to_string()
        ]
    );
    assert_eq!(
        pairs(&plan),
        vec![(
            "/data/record/photo.png".to_string(),
            "/data/record/screen capture/202403/20240305102030_screen-capture.png".to_string(),
            ActionType::Rename
        )]
    );
    assert!(!plan.is_empty());
}

#[test]
fn older_file_gets_year_folder() {
    let entries = vec![
        dir(ROOT),
        dir("/data/record/screen record"),
        dir("/data/record/screen record/202301"),
        file("/data/record/screen record/202301/old.mp4", at(2023, 1, 15, 8, 0, 1)),
    ];
    let plan = RecordManager::plan(ROOT, &RecordOptions::default(), &entries, 2024).unwrap();
    assert_eq!(
        pairs(&plan),
        vec![(
            "/data/record/screen record/202301/old.mp4".to_string(),
            "/data/record/screen record/2023/202301/20230115080001_screen-record.mp4".to_string(),
            ActionType::Rename
        )]
    );
    assert_eq!(plan.required_folders, vec!["/data/record/screen record/2023/202301".to_string()]);
}

#[test]
fn wav_in_capture_folder_moves_to_voice_record() {
    let entries = vec![
        dir(ROOT),
        dir("/data/record/screen capture"),
        file(
            "/data/record/screen capture/20230101000000_screen-capture.wav",
            at(2023, 1, 1, 0, 0, 0),
        ),
    ];
    let plan = RecordManager::plan(ROOT, &RecordOptions::default(), &entries, 2024).unwrap();
    assert_eq!(
        pairs(&plan),
        vec![(
            "/data/record/screen capture/20230101000000_screen-capture.wav".to_string(),
            "/data/record/voice record/2023/202301/20230101000000_voice-record.wav".to_string(),
            ActionType::Rename
        )]
    );
}

#[test]
fn clip_in_stray_folder_is_absorbed_and_folder_removed() {
    let entries = vec![
        dir(ROOT),
        dir("/data/record/misc"),
        file("/data/record/misc/clip.mov", at(2024, 6, 7, 1, 2, 3)),
    ];
    let plan = RecordManager::plan(ROOT, &RecordOptions::default(), &entries, 2024).unwrap();
    let target = "/data/record/screen record/202406/20240607010203_screen-record.mov";
    assert_eq!(
        pairs(&plan),
        vec![("/data/record/misc/clip.mov".to_string(), target.to_string(), ActionType::Rename)]
    );
    assert_eq!(plan.required_folders, vec!["/data/record/screen record/202406".to_string()]);
    let operations = RecordManager::apply(&plan, &entries).unwrap();
    assert_eq!(
        operations,
        vec![
            FsOperation::CreateDirAll { path: "/data/record/screen record/202406".to_string() },
            FsOperation::CreateDirAll { path: "/data/record/screen record/202406".to_string() },
            FsOperation::Rename {
                source: "/data/record/misc/clip.mov".to_string(),
                target: target.to_string()
            },
        ]
    );
    let after = vec![
        dir(ROOT),
        dir("/data/record/misc"),
        dir("/data/record/screen record"),
        dir("/data/record/screen record/202406"),
        file(target, at(2024, 6, 7, 1, 2, 3)),
    ];
    assert_eq!(
        RecordManager::cleanup_non_standard_empty_dirs(ROOT, &after),
        vec![FsOperation::RemoveDir { path: "/data/record/misc".to_string() }]
    );
    let again = RecordManager::plan(ROOT, &RecordOptions::default(), &after, 2024).unwrap();
    assert!(again.is_empty());
}

#[test]
fn organized_tree_gives_empty_plan() {
    let entries = vec![
        dir(ROOT),
        dir("/data/record/screen capture"),
        dir("/data/record/screen capture/202403"),
        file(
            "/data/record/screen capture/202403/20240305102030_screen-capture.png",
            at(2024, 3, 5, 10, 20, 30),
        ),
        dir("/data/record/voice record"),
        dir("/data/record/voice record/2022"),
        dir("/data/record/voice record/2022/202212"),
        file(
            "/data/record/voice record/2022/202212/20221224180000_voice-record-2.mp3",
            at(2022, 12, 24, 18, 0, 0),
        ),
    ];
    let plan = RecordManager::plan(ROOT, &RecordOptions::default(), &entries, 2024).unwrap();
    assert!(plan.is_empty());
    assert_eq!(plan.actions.len(), 0);
    assert_eq!(plan.required_folders.len(), 0);
}

#[test]
fn three_files_with_one_name_get_counters() {
    let stamp = at(2024, 3, 5, 10, 20, 30);
    let entries = vec![
        dir(ROOT),
        file("/data/record/a.png", stamp),
        file("/data/record/b.png", stamp),
        file("/data/record/c.png", stamp),
    ];
    let plan = RecordManager::plan(ROOT, &RecordOptions::default(), &entries, 2024).unwrap();
    let folder = "/data/record/screen capture/202403/";
    assert_eq!(
        pairs(&plan),
        vec![
            (
                "/data/record/a.png".to_string(),
                format!("{}20240305102030_screen-capture.png", folder),
                ActionType::Rename
            ),
            (
                "/data/record/b.png".to_string(),
                format!("{}20240305102030_screen-capture-2.png", folder),
                ActionType::Rename
            ),
            (
                "/data/record/c.png".to_string(),
                format!("{}20240305102030_screen-capture-3.png", folder),
                ActionType::Rename
            ),
        ]
    );
}

#[test]
fn missing_root_is_all_there_is_to_create() {
    let entries: Vec<FileInfo> = Vec::new();
    let plan = RecordManager::plan(ROOT, &RecordOptions::default(), &entries, 2024).unwrap();
    assert_eq!(plan.required_folders, vec![ROOT.to_string()]);
    assert!(plan.actions.is_empty());
    assert_eq!(plan.record_root, ROOT);
}

#[test]
fn record_type_names() {
    assert_eq!(RecordType::ScreenCapture.folder_name(), "screen capture");
    assert_eq!(RecordType::ScreenRecord.folder_name(), "screen record");
    assert_eq!(RecordType::VoiceRecord.folder_name(), "voice record");
    assert_eq!(RecordType::ScreenCapture.naming_prefix(), "screen-capture");
    assert_eq!(RecordType::ScreenRecord.naming_prefix(), "screen-record");
    assert_eq!(RecordType::VoiceRecord.naming_prefix(), "voice-record");
    let _ = RecordFileAction {
        source: String::new(),
        target: String::new(),
        action_type: ActionType::Move,
    };
}
