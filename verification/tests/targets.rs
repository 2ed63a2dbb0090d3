use looker::naming::NamingRule;
use looker::record_manager::{PlanError, RecordManager, RecordType};
use looker::scanner::{DriveScanner, FileInfo};
use looker::timestamp::Timestamp;

fn at(year: i32, month: u32, day: u32, hour: u32, minute: u32, second: u32) -> Timestamp {
    Timestamp::new(year, month, day, hour, minute, second).unwrap()
}

fn file(path: &str, modified: Timestamp) -> FileInfo {
    FileInfo::new(path, 7, modified, false)
}

#[test]
fn timestamps_follow_the_calendar() {
    assert!(Timestamp::new(2024, 2, 29, 0, 0, 0).is_some());
    assert!(Timestamp::new(2023, 2, 29, 0, 0, 0).is_none());
    assert!(Timestamp::new(1900, 2, 29, 0, 0, 0).is_none());
    assert!(Timestamp::new(2000, 2, 29, 0, 0, 0).is_some());
    assert!(Timestamp::new(2024, 4, 31, 0, 0, 0).is_none());
    assert!(Timestamp::new(2024, 12, 31, 23, 59, 59).is_some());
    assert!(Timestamp::new(2024, 0, 1, 0, 0, 0).is_none());
    assert!(Timestamp::new(2024, 13, 1, 0, 0, 0).is_none());
    assert!(Timestamp::new(2024, 1, 0, 0, 0, 0).is_none());
    assert!(Timestamp::new(2024, 1, 1, 24, 0, 0).is_none());
    assert!(Timestamp::new(2024, 1, 1, 0, 60, 0).is_none());
    assert!(Timestamp::new(2024, 1, 1, 0, 0, 60).is_none());
    assert!(Timestamp::new(262142, 12, 31, 0, 0, 0).is_some());
    assert!(Timestamp::new(262143, 1, 1, 0, 0, 0).is_none());
    assert!(Timestamp::new(-262143, 1, 1, 0, 0, 0).is_some());
    assert!(Timestamp::new(-262144, 1, 1, 0, 0, 0).is_none());
    assert!(Timestamp::new(-4, 2, 29, 0, 0, 0).is_some());
    let t = at(2024, 3, 5, 10, 20, 30);
    assert_eq!(
        (t.year(), t.month(), t.day(), t.hour(), t.minute(), t.second()),
        (2024, 3, 5, 10, 20, 30)
    );
}

#[test]
fn timestamp_digits() {
    assert_eq!(at(2024, 3, 5, 10, 20, 30).compact(), "20240305102030");
    assert_eq!(at(2000, 1, 1, 0, 0, 0).compact(), "20000101000000");
    assert_eq!(at(999, 12, 31, 23, 59, 59).compact(), "09991231235959");
    assert_eq!(at(5, 1, 2, 3, 4, 5).compact(), "00050102030405");
    assert_eq!(at(0, 1, 2, 3, 4, 5).compact(), "00000102030405");
    assert_eq!(at(9999, 1, 2, 3, 4, 5).compact(), "99990102030405");
    assert_eq!(at(10000, 1, 2, 3, 4, 5).compact(), "+100000102030405");
    assert_eq!(at(-5, 1, 2, 3, 4, 5).compact(), "-00050102030405");
    assert_eq!(at(-12345, 1, 2, 3, 4, 5).compact(), "-123450102030405");
    assert_eq!(at(2024, 3, 5, 10, 20, 30).month_folder(), "202403");
    assert_eq!(at(2024, 12, 5, 10, 20, 30).month_folder(), "202412");
    assert_eq!(at(5, 1, 2, 3, 4, 5).month_folder(), "501");
    assert_eq!(at(-5, 1, 2, 3, 4, 5).month_folder(), "-501");
    assert_eq!(at(2024, 3, 5, 10, 20, 30).year_folder(), "2024");
    assert_eq!(at(-5, 1, 2, 3, 4, 5).year_folder(), "-5");
}

#[test]
fn entries_take_name_and_extension_from_path() {
    let f = FileInfo::new("/r/Sub Dir/Clip.One.MOV", 12, at(2024, 1, 1, 0, 0, 0), false);
    assert_eq!(f.path, "/r/Sub Dir/Clip.One.MOV");
    assert_eq!(f.name, "Clip.One.MOV");
    assert_eq!(f.extension, "mov");
    assert_eq!(f.size, 12);
    assert!(!f.is_dir);
    let d = FileInfo::new("/r/misc", 0, at(2024, 1, 1, 0, 0, 0), true);
    assert_eq!(d.name, "misc");
    assert_eq!(d.extension, "");
    assert!(d.is_dir);
    let copy = f.clone();
    assert_eq!(copy.path, f.path);
    assert_eq!(copy.extension, "mov");
}

#[test]
fn folder_for_this_year_is_flat() {
    let f = file("/r/a.png", at(2024, 3, 5, 10, 20, 30));
    assert_eq!(
        RecordManager::determine_target_folder(&f, "/r/screen capture", 2024),
        "/r/screen capture/202403"
    );
    assert_eq!(
        RecordManager::determine_target_folder(&f, "/r/screen capture", 2023),
        "/r/screen capture/202403"
    );
}

#[test]
fn folder_for_earlier_year_has_year_level() {
    let f = file("/r/a.png", at(2023, 11, 5, 10, 20, 30));
    assert_eq!(
        RecordManager::determine_target_folder(&f, "/r/screen capture", 2024),
        "/r/screen capture/2023/202311"
    );
    let old = file("/r/a.png", at(1999, 1, 5, 10, 20, 30));
    assert_eq!(
        RecordManager::determine_target_folder(&old, "/r/voice record", 2024),
        "/r/voice record/1999/199901"
    );
}

#[test]
fn generated_names() {
    let f = file("/r/Photo.PNG", at(2024, 3, 5, 10, 20, 30));
    assert_eq!(
        RecordManager::generate_record_filename(&f, &RecordType::ScreenCapture),
        "20240305102030_screen-capture.png"
    );
    assert_eq!(
        RecordManager::generate_record_filename(&f, &RecordType::VoiceRecord),
        "20240305102030_voice-record.png"
    );
    let bare = file("/r/README", at(2024, 3, 5, 10, 20, 30));
    assert_eq!(
        RecordManager::generate_record_filename(&bare, &RecordType::ScreenRecord),
        "20240305102030_screen-record"
    );
}

#[test]
fn generated_name_is_canonical() {
    for category in [RecordType::ScreenCapture, RecordType::ScreenRecord, RecordType::VoiceRecord] {
        for path in ["/r/a.png", "/r/b.tar.GZ", "/r/c.x", "/r/録音.wav", "/r/d.p_q"] {
            for stamp in
                [at(2024, 3, 5, 10, 20, 30), at(0, 1, 1, 0, 0, 0), at(9999, 12, 31, 23, 59, 59)]
            {
                let name = RecordManager::generate_record_filename(&file(path, stamp), &category);
                assert!(NamingRule::matches_canonical(&name, &category), "{name}");
                assert!(NamingRule::check_record_naming(&name), "{name}");
            }
        }
    }
    let bare = RecordManager::generate_record_filename(
        &file("/r/README", at(2024, 3, 5, 10, 20, 30)),
        &RecordType::ScreenCapture,
    );
    assert!(!NamingRule::check_record_naming(&bare));
    let far = RecordManager::generate_record_filename(
        &file("/r/a.png", at(10000, 3, 5, 10, 20, 30)),
        &RecordType::ScreenCapture,
    );
    assert!(!NamingRule::check_record_naming(&far));
}

#[test]
fn free_name_is_taken_as_it_is() {
    let entries: Vec<FileInfo> = Vec::new();
    let mut planned = Vec::new();
    let path =
        RecordManager::unique_target_path("/r/f", "20240305102030_screen-capture.png", &mut planned, &entries);
    assert_eq!(path, Ok("/r/f/20240305102030_screen-capture.png".to_string()));
    assert_eq!(planned, vec!["/r/f/20240305102030_screen-capture.png".to_string()]);
}

#[test]
fn taken_names_get_the_smallest_free_counter() {
    let stamp = at(2024, 3, 5, 10, 20, 30);
    let entries = vec![
        file("/r/f/n.png", stamp),
        file("/r/f/n-2.png", stamp),
        file("/r/f/n-4.png", stamp),
    ];
    let mut planned = vec!["/r/f/n-3.png".to_string()];
    assert_eq!(
        RecordManager::unique_target_path("/r/f", "n.png", &mut planned, &entries),
        Ok("/r/f/n-5.png".to_string())
    );
    assert_eq!(planned, vec!["/r/f/n-3.png".to_string(), "/r/f/n-5.png".to_string()]);
    assert_eq!(
        RecordManager::unique_target_path("/r/f", "n.png", &mut planned, &entries),
        Ok("/r/f/n-6.png".to_string())
    );
    assert_eq!(
        RecordManager::unique_target_path("/r/g", "n.png", &mut planned, &entries),
        Ok("/r/g/n.png".to_string())
    );
}

#[test]
fn a_counter_that_is_there_is_replaced() {
    let stamp = at(2024, 3, 5, 10, 20, 30);
    let entries = vec![file("/r/f/n-2.png", stamp), file("/r/f/n-3.png", stamp)];
    let mut planned = Vec::new();
    assert_eq!(
        RecordManager::unique_target_path("/r/f", "n-2.png", &mut planned, &entries),
        Ok("/r/f/n-4.png".to_string())
    );
    let mut planned = Vec::new();
    let bare = vec![file("/r/f/n-7", stamp)];
    assert_eq!(
        RecordManager::unique_target_path("/r/f", "n-7", &mut planned, &bare),
        Ok("/r/f/n-2".to_string())
    );
    let mut planned = Vec::new();
    let dotted = vec![file("/r/f/a.b-1.c", stamp)];
    assert_eq!(
        RecordManager::unique_target_path("/r/f", "a.b-1.c", &mut planned, &dotted),
        Ok("/r/f/a.b-2.c".to_string())
    );
}

#[test]
fn counters_run_out_at_the_largest() {
    let stamp = at(2024, 3, 5, 10, 20, 30);
    let entries = vec![file("/r/f/n-4294967295.png", stamp), file("/r/f/n-4294967294.png", stamp)];
    let planned: Vec<String> = Vec::new();
    assert_eq!(
        RecordManager::first_free_suffix("/r/f", "n.png", 4294967295, &planned, &entries),
        None
    );
    assert_eq!(
        RecordManager::first_free_suffix("/r/f", "n.png", 4294967294, &planned, &entries),
        None
    );
    assert_eq!(
        RecordManager::first_free_suffix("/r/f", "n.png", 4294967293, &planned, &entries),
        Some(4294967293)
    );
    assert_eq!(RecordManager::first_free_suffix("/r/f", "n.png", 2, &planned, &entries), Some(2));
    assert_eq!(PlanError::SuffixExhaustion, PlanError::SuffixExhaustion);
    assert!(RecordManager::is_taken(&"/r/f/n-4294967295.png".to_string(), &planned, &entries));
    assert!(!RecordManager::is_taken(&"/r/f/n.png".to_string(), &planned, &entries));
}

#[test]
fn scan_queries() {
    let stamp = at(2024, 3, 5, 10, 20, 30);
    let entries = vec![
        FileInfo::new("/r", 0, stamp, true),
        file("/r/a.png", stamp),
        FileInfo::new("/r/sub", 0, stamp, true),
        file("/r/sub/b.png", stamp),
        file("/r/sub/deep/c.png", stamp),
        file("/other/d.png", stamp),
    ];
    assert!(DriveScanner::has_path(&entries, "/r/sub"));
    assert!(!DriveScanner::has_path(&entries, "/r/sub/"));
    assert!(!DriveScanner::has_path(&entries, "/r/sub/deep"));
    let paths = |found: Vec<FileInfo>| found.into_iter().map(|f| f.path).collect::<Vec<_>>();
    assert_eq!(
        paths(DriveScanner::scan("/r/sub", &entries)),
        vec!["/r/sub", "/r/sub/b.png", "/r/sub/deep/c.png"]
    );
    assert_eq!(paths(RecordManager::scan_record_folder("/r", &entries)), vec!["/r/a.png"]);
    assert_eq!(paths(RecordManager::scan_record_folder("/r/sub", &entries)), vec!["/r/sub/b.png"]);
    assert_eq!(
        paths(RecordManager::scan_all_files_recursive("/r", &entries)),
        vec!["/r/a.png", "/r/sub/b.png", "/r/sub/deep/c.png"]
    );
    assert!(RecordManager::is_stray_folder("/r", &entries[2]));
    assert!(!RecordManager::is_stray_folder("/r", &entries[0]));
    assert!(!RecordManager::is_stray_folder("/r", &entries[1]));
    assert!(!RecordManager::is_stray_folder("/r", &FileInfo::new("/r/voice record", 0, stamp, true)));
    assert!(RecordManager::has_no_files("/r/sub/deep/x", &entries));
    assert!(!RecordManager::has_no_files("/r/sub", &entries));
}

#[test]
fn entries_are_sorted_by_path() {
    let stamp = at(2024, 3, 5, 10, 20, 30);
    let entries = vec![
        file("/r/b/x.png", stamp),
        FileInfo::new("/r/b", 0, stamp, true),
        file("/r/a b/c.png", stamp),
        file("/r/a/c.png", stamp),
        FileInfo::new("/r", 1, stamp, true),
        FileInfo::new("/r", 2, stamp, true),
        file("/r/B.png", stamp),
    ];
    let sorted = DriveScanner::sort_by_path(&entries);
    let shown: Vec<(&str, u64)> = sorted.iter().map(|e| (e.path.as_str(), e.size)).collect();
    assert_eq!(
        shown,
        vec![
            ("/r", 1),
            ("/r", 2),
            ("/r/B.png", 7),
            ("/r/a b/c.png", 7),
            ("/r/a/c.png", 7),
            ("/r/b", 0),
            ("/r/b/x.png", 7),
        ]
    );
    assert!(DriveScanner::sort_by_path(&Vec::new()).is_empty());
}
