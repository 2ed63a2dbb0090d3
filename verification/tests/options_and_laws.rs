use looker::planner::Sweep;
use looker::record_manager::{
    ActionType, RecordManager, RecordOptions, RecordOrganizationPlan, RecordType,
};
use looker::scanner::FileInfo;
use looker::timestamp::Timestamp;

const ROOT: &str = "/data/record";

fn at(year: i32, month: u32, day: u32, hour: u32, minute: u32, second: u32) -> Timestamp {
    Timestamp::new(year, month, day, hour, minute, second).unwrap()
}

fn dir(path: &str) -> FileInfo {
    FileInfo::new(path, 0, at(2024, 1, 1, 0, 0, 0), true)
}

fn file(path: &str, modified: Timestamp) -> FileInfo {
    FileInfo::new(path, 10, modified, false)
}

fn moves(plan: &RecordOrganizationPlan) -> Vec<(String, String, ActionType)> {
    plan.actions.iter().map(|a| (a.source.clone(), a.target.clone(), a.action_type)).collect()
}

#[test]
fn default_options_cover_everything() {
    let options = RecordOptions::default();
    assert!(options.target_types.is_empty());
    assert!(options.check_misplaced);
    assert!(options.includes(&RecordType::ScreenCapture));
    assert!(options.includes(&RecordType::ScreenRecord));
    assert!(options.includes(&RecordType::VoiceRecord));
    let some = RecordOptions {
        target_types: vec![RecordType::VoiceRecord, RecordType::ScreenRecord],
        check_misplaced: false,
    };
    assert!(!some.includes(&RecordType::ScreenCapture));
    assert!(some.includes(&RecordType::ScreenRecord));
    assert!(some.includes(&RecordType::VoiceRecord));
    let copy = some.clone();
    assert_eq!(copy.target_types, some.target_types);
    assert!(!copy.check_misplaced);
    assert_eq!(
        RecordManager::all_record_types(),
        vec![RecordType::ScreenCapture, RecordType::ScreenRecord, RecordType::VoiceRecord]
    );
}

#[test]
fn only_covered_categories_are_planned() {
    let entries = vec![
        dir(ROOT),
        file("/data/record/a.png", at(2024, 3, 5, 1, 1, 1)),
        file("/data/record/b.mp4", at(2024, 3, 5, 1, 1, 2)),
        file("/data/record/c.wav", at(2024, 3, 5, 1, 1, 3)),
        dir("/data/record/voice record"),
        file("/data/record/voice record/d.wav", at(2024, 3, 5, 1, 1, 4)),
        file("/data/record/voice record/e.png", at(2024, 3, 5, 1, 1, 5)),
    ];
    let options = RecordOptions { target_types: vec![RecordType::VoiceRecord], check_misplaced: true };
    let plan = RecordManager::plan(ROOT, &options, &entries, 2024).unwrap();
    assert_eq!(
        moves(&plan),
        vec![
            (
                "/data/record/c.wav".to_string(),
                "/data/record/voice record/202403/20240305010103_voice-record.wav".to_string(),
                ActionType::Rename
            ),
            (
                "/data/record/voice record/d.wav".to_string(),
                "/data/record/voice record/202403/20240305010104_voice-record.wav".to_string(),
                ActionType::Rename
            ),
        ]
    );
    assert_eq!(plan.required_folders, vec!["/data/record/voice record/202403".to_string()]);
}

#[test]
fn fast_mode_leaves_nested_files_alone() {
    let entries = vec![
        dir(ROOT),
        dir("/data/record/misc"),
        file("/data/record/misc/clip.mov", at(2024, 6, 7, 1, 2, 3)),
        dir("/data/record/screen capture"),
        dir("/data/record/screen capture/202403"),
        file("/data/record/screen capture/202403/talk.mp3", at(2022, 2, 2, 2, 2, 2)),
    ];
    let fast = RecordOptions { target_types: Vec::new(), check_misplaced: false };
    assert!(RecordManager::plan(ROOT, &fast, &entries, 2024).unwrap().is_empty());
    let mut planned = Vec::new();
    let found =
        RecordManager::check_misplaced_files(ROOT, &RecordOptions::default(), &entries, 2024, &mut planned)
            .unwrap();
    let targets: Vec<&str> = found.iter().map(|a| a.target.as_str()).collect();
    assert_eq!(
        targets,
        vec![
            "/data/record/voice record/2022/202202/20220202020202_voice-record.mp3",
            "/data/record/screen record/202406/20240607010203_screen-record.mov",
        ]
    );
    assert_eq!(found[0].action_type, ActionType::Rename);
    assert_eq!(planned.len(), 2);
}

#[test]
fn kinds_of_actions() {
    let entries = vec![
        dir(ROOT),
        file("/data/record/20240305010101_screen-capture.png", at(2024, 3, 5, 1, 1, 1)),
        file("/data/record/plain.png", at(2024, 3, 5, 1, 1, 2)),
        dir("/data/record/misc"),
        file("/data/record/misc/20240305010103_voice-record.wav", at(2024, 3, 5, 1, 1, 3)),
        dir("/data/record/voice record"),
        dir("/data/record/voice record/x"),
        file("/data/record/voice record/x/20240305010104_screen-record.mp4", at(2024, 3, 5, 1, 1, 4)),
        file("/data/record/voice record/x/20240305010105_voice-record.mp3", at(2020, 3, 5, 1, 1, 5)),
    ];
    let plan = RecordManager::plan(ROOT, &RecordOptions::default(), &entries, 2024).unwrap();
    let kinds: Vec<(&str, ActionType)> =
        plan.actions.iter().map(|a| (a.source.as_str(), a.action_type)).collect();
    assert_eq!(
        kinds,
        vec![
            ("/data/record/20240305010101_screen-capture.png", ActionType::Move),
            ("/data/record/misc/20240305010103_voice-record.wav", ActionType::MoveToCorrectLocation),
            ("/data/record/plain.png", ActionType::Rename),
            (
                "/data/record/voice record/x/20240305010104_screen-record.mp4",
                ActionType::MoveToCorrectLocation
            ),
        ]
    );
}

#[test]
fn one_file_at_a_time() {
    let entries = vec![dir(ROOT), file("/data/record/a.png", at(2024, 3, 5, 1, 1, 1))];
    let options = RecordOptions::default();
    let mut plan = RecordOrganizationPlan::new(ROOT.to_string());
    let mut planned = Vec::new();
    RecordManager::route_file(
        ROOT,
        &options,
        &entries,
        2024,
        Sweep::Direct,
        &entries[1],
        &mut plan,
        &mut planned,
    )
    .unwrap();
    assert_eq!(planned, vec!["/data/record/screen capture/202403/20240305010101_screen-capture.png"]);
    assert_eq!(plan.actions.len(), 1);
    assert_eq!(plan.required_folders.len(), 2);
    let mut nested = RecordOrganizationPlan::new(ROOT.to_string());
    RecordManager::route_files(
        ROOT,
        &options,
        &entries,
        2024,
        Sweep::Stray,
        &vec![entries[1].clone()],
        &mut nested,
        &mut planned,
    )
    .unwrap();
    assert_eq!(nested.required_folders.len(), 0);
    assert_eq!(
        nested.actions[0].target,
        "/data/record/screen capture/202403/20240305010101_screen-capture-2.png"
    );
    let mut direct = RecordOrganizationPlan::new(ROOT.to_string());
    let in_folder = file("/data/record/screen capture/b.png", at(2024, 3, 5, 1, 1, 1));
    RecordManager::route_file(
        ROOT,
        &options,
        &entries,
        2024,
        Sweep::Nested(RecordType::ScreenCapture),
        &in_folder,
        &mut direct,
        &mut planned,
    )
    .unwrap();
    assert!(direct.is_empty());
}

#[test]
fn extension_decides_whatever_the_name() {
    for (extension, category) in [
        ("png", RecordType::ScreenCapture),
        ("ICO", RecordType::ScreenCapture),
        ("m4v", RecordType::ScreenRecord),
        ("WebM", RecordType::ScreenRecord),
        ("flac", RecordType::VoiceRecord),
        ("M4A", RecordType::VoiceRecord),
    ] {
        for stem in ["a", "voice", "recording", "screenshot", "x.y", ".", "20240101000000_voice-record"] {
            for folder in ["", "/", "/r", "/voice record/2024"] {
                let path = looker::paths::join(folder, &format!("{stem}.{extension}"));
                assert_eq!(RecordManager::guess_record_type(&path), category, "{path}");
            }
        }
    }
}

#[test]
fn year_changes_where_old_files_go() {
    let entries = vec![dir(ROOT), file("/data/record/a.png", at(2024, 12, 31, 23, 59, 59))];
    let this_year = RecordManager::plan(ROOT, &RecordOptions::default(), &entries, 2024).unwrap();
    let next_year = RecordManager::plan(ROOT, &RecordOptions::default(), &entries, 2025).unwrap();
    assert_eq!(
        this_year.actions[0].target,
        "/data/record/screen capture/202412/20241231235959_screen-capture.png"
    );
    assert_eq!(
        next_year.actions[0].target,
        "/data/record/screen capture/2024/202412/20241231235959_screen-capture.png"
    );
    assert_eq!(
        next_year.required_folders,
        vec!["/data/record/screen capture", "/data/record/screen capture/2024/202412"]
    );
}
