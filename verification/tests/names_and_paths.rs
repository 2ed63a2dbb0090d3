use looker::naming::NamingRule;
use looker::paths;
use looker::record_manager::{RecordManager, RecordType};
use looker::text;

#[test]
fn join_puts_one_separator() {
    assert_eq!(paths::join("/data/record", "screen capture"), "/data/record/screen capture");
    assert_eq!(paths::join("/data/record/", "x.png"), "/data/record/x.png");
    assert_eq!(paths::join("", "x.png"), "x.png");
    assert_eq!(paths::join("/", "x"), "/x");
    assert_eq!(paths::join("a", "2023/202301"), "a/2023/202301");
}

#[test]
fn file_name_is_last_component() {
    assert_eq!(paths::file_name("/data/record/photo.png"), "photo.png");
    assert_eq!(paths::file_name("photo.png"), "photo.png");
    assert_eq!(paths::file_name("/data/record/"), "");
    assert_eq!(paths::file_name(""), "");
    assert_eq!(paths::file_name("/a/b c/録音.wav"), "録音.wav");
}

#[test]
fn parent_is_what_stands_before_last_separator() {
    assert_eq!(paths::parent("/data/record/photo.png"), Some("/data/record".to_string()));
    assert_eq!(paths::parent("/photo.png"), Some("/".to_string()));
    assert_eq!(paths::parent("photo.png"), Some(String::new()));
    assert_eq!(paths::parent(""), None);
    assert_eq!(paths::parent("/"), None);
}

#[test]
fn extension_follows_last_dot() {
    assert_eq!(paths::extension("photo.png"), "png");
    assert_eq!(paths::extension("archive.tar.gz"), "gz");
    assert_eq!(paths::extension("README"), "");
    assert_eq!(paths::extension(".bashrc"), "");
    assert_eq!(paths::extension("clip.MOV"), "MOV");
    assert_eq!(paths::extension("ends."), "");
}

#[test]
fn under_and_direct_child() {
    assert!(paths::is_under("/r/a/b.png", "/r"));
    assert!(paths::is_under("/r/a/b.png", "/r/a"));
    assert!(paths::is_under("/r/a/b.png", "/r/"));
    assert!(!paths::is_under("/r", "/r"));
    assert!(!paths::is_under("/rx/a", "/r"));
    assert!(!paths::is_under("/r/", "/r"));
    assert!(paths::is_direct_child("/r/b.png", "/r"));
    assert!(!paths::is_direct_child("/r/a/b.png", "/r"));
    assert!(paths::is_direct_child("b.png", ""));
}

#[test]
fn chars_round_trip() {
    let v = text::to_chars("録音 a-1.wav");
    assert_eq!(v.len(), 10);
    assert_eq!(text::from_chars(&v), "録音 a-1.wav");
    assert_eq!(text::from_chars(&text::to_lower(&text::to_chars("ABC.Mp4é"))), "abc.mp4é");
    let mut digits = Vec::new();
    text::push_decimal(&mut digits, 0);
    text::push_decimal(&mut digits, 4294967295);
    assert_eq!(text::from_chars(&digits), "04294967295");
}

#[test]
fn dictionary_order_is_by_character() {
    let less = |a: &str, b: &str| text::precedes(&text::to_chars(a), &text::to_chars(b));
    assert!(less("a", "b"));
    assert!(less("a", "ab"));
    assert!(less("", "a"));
    assert!(!less("a", "a"));
    assert!(!less("b", "a"));
    assert!(less("a b/c", "a/c"));
    assert!(less("/r/screen capture", "/r/screen capture/202403"));
}

#[test]
fn substring_search() {
    let has = |s: &str, p: &str| text::find_str(&text::to_chars(s), p);
    assert!(has("my-screenshot-1", "screenshot"));
    assert!(has("abc", ""));
    assert!(has("", ""));
    assert!(!has("scree", "screen"));
    assert!(has("xxvoice", "voice"));
    assert_eq!(text::find_first(&text::to_chars("a_b_c"), '_'), Some(1));
    assert_eq!(text::find_last(&text::to_chars("a_b_c"), '_'), Some(3));
    assert_eq!(text::find_first(&text::to_chars("abc"), '_'), None);
    assert_eq!(text::find_last(&text::to_chars(""), '_'), None);
}

#[test]
fn canonical_names_are_recognized() {
    assert!(NamingRule::check_record_naming("20240305102030_screen-capture.png"));
    assert!(NamingRule::check_record_naming("20240305102030_screen-record.mp4"));
    assert!(NamingRule::check_record_naming("20240305102030_voice-record.wav"));
    assert!(NamingRule::check_record_naming("20240305102030_voice-record-2.wav"));
    assert!(NamingRule::check_record_naming("20240305102030_screen-capture-15.png"));
    assert!(NamingRule::check_record_naming("20240305102030_screen-capture-002.png"));
    assert!(NamingRule::check_record_naming("00000000000000_screen-capture.x"));
    assert!(NamingRule::check_record_naming("20240305102030_screen-capture.p_ng"));
}

#[test]
fn other_names_are_not_canonical() {
    for name in [
        "",
        "photo.png",
        "20240305102030_screen-capture",
        "20240305102030_screen-capture.",
        "20240305102030_screen-capture.tar.gz",
        "2024030510203_screen-capture.png",
        "202403051020300_screen-capture.png",
        "20240305102030-screen-capture.png",
        "20240305102030_screencapture.png",
        "20240305102030_screen-capture-.png",
        "20240305102030_screen-capture-a.png",
        "20240305102030_screen-capture-2a.png",
        "20240305102030_screen-capture2.png",
        "20240305102030_screen-capture-1.png",
        "20240305102030_screen-capture-0.png",
        "20240305102030_screen-capture-01.png",
        "x20240305102030_screen-capture.png",
        "20240305102030_Screen-Capture.png",
        "２０２４０３０５１０２０３０_screen-capture.png",
        "20240305102030_screen-capture-２.png",
    ] {
        assert!(!NamingRule::check_record_naming(name), "{name}");
    }
}

#[test]
fn canonical_for_one_category_only() {
    let name = "20240305102030_screen-record-3.mkv";
    assert!(NamingRule::matches_canonical(name, &RecordType::ScreenRecord));
    assert!(!NamingRule::matches_canonical(name, &RecordType::ScreenCapture));
    assert!(!NamingRule::matches_canonical(name, &RecordType::VoiceRecord));
    for category in [RecordType::ScreenCapture, RecordType::ScreenRecord, RecordType::VoiceRecord] {
        let own = format!("20240305102030_{}.bin", category.naming_prefix());
        assert!(NamingRule::matches_canonical(&own, &category));
        assert_eq!(RecordManager::extract_naming_prefix(&own), category.naming_prefix());
    }
}

#[test]
fn canonical_check_agrees_with_the_pattern() {
    let pattern = regex::Regex::new(
        r"^\d{14}_(screen-capture|screen-record|voice-record)(-\d+)?\.[^.]+$",
    )
    .unwrap();
    let stamps = ["20240305102030", "2024030510203", "2024030510203a", "99999999999999"];
    let words = ["screen-capture", "screen-record", "voice-record", "voice", "screen_capture", ""];
    let counters = ["", "-2", "-3", "-10", "-99999999999999999999", "-", "-x", "--2", "-2-3"];
    let extensions = [".png", ".PNG", ".a b", "", ".", ".tar.gz", "..png", ".p-2"];
    let mut checked = 0;
    for stamp in stamps {
        for word in words {
            for counter in counters {
                for extension in extensions {
                    let name = format!("{stamp}_{word}{counter}{extension}");
                    assert_eq!(
                        NamingRule::check_record_naming(&name),
                        pattern.is_match(&name),
                        "{name}"
                    );
                    checked += 1;
                }
            }
        }
    }
    assert_eq!(checked, 4 * 6 * 9 * 8);
}

#[test]
fn prefix_is_second_segment_without_extension_and_counter() {
    assert_eq!(
        RecordManager::extract_naming_prefix("20230101000000_screen-capture.wav"),
        "screen-capture"
    );
    assert_eq!(
        RecordManager::extract_naming_prefix("20230101000000_voice-record-12.wav"),
        "voice-record"
    );
    assert_eq!(RecordManager::extract_naming_prefix("a_b_c.txt"), "b");
    assert_eq!(RecordManager::extract_naming_prefix("a_b.c.d_e"), "b.c");
    assert_eq!(RecordManager::extract_naming_prefix("photo.png"), "");
    assert_eq!(RecordManager::extract_naming_prefix(""), "");
    assert_eq!(RecordManager::extract_naming_prefix("a_"), "");
    assert_eq!(RecordManager::extract_naming_prefix("a_x-"), "x-");
    assert_eq!(RecordManager::extract_naming_prefix("a_x-1a"), "x-1a");
    assert_eq!(RecordManager::extract_naming_prefix("a_-7"), "");
    assert_eq!(RecordManager::extract_naming_prefix("a_x-1-2.png"), "x-1");
}

#[test]
fn category_by_extension() {
    for e in ["png", "jpg", "jpeg", "gif", "bmp", "webp", "svg", "ico", "PNG", "Jpeg"] {
        let path = format!("/r/voice recording.{e}");
        assert_eq!(RecordManager::guess_record_type(&path), RecordType::ScreenCapture, "{e}");
    }
    for e in ["mp4", "avi", "mov", "mkv", "wmv", "flv", "webm", "m4v", "MOV"] {
        let path = format!("/r/screenshot of voice.{e}");
        assert_eq!(RecordManager::guess_record_type(&path), RecordType::ScreenRecord, "{e}");
    }
    for e in ["mp3", "wav", "flac", "aac", "ogg", "wma", "m4a", "WAV"] {
        let path = format!("/r/20230101000000_screen-capture.{e}");
        assert_eq!(RecordManager::guess_record_type(&path), RecordType::VoiceRecord, "{e}");
    }
}

#[test]
fn category_by_words_and_default() {
    let guess = RecordManager::guess_record_type;
    assert_eq!(guess("/r/My Screenshot.dat"), RecordType::ScreenCapture);
    assert_eq!(guess("/r/x_screen-capture.dat"), RecordType::ScreenCapture);
    assert_eq!(guess("/r/x_SCREEN-RECORD.dat"), RecordType::ScreenRecord);
    assert_eq!(guess("/r/meeting recording"), RecordType::ScreenRecord);
    assert_eq!(guess("/r/x_voice-record.dat"), RecordType::VoiceRecord);
    assert_eq!(guess("/r/Voice memo.dat"), RecordType::VoiceRecord);
    assert_eq!(guess("/r/audio note.dat"), RecordType::VoiceRecord);
    assert_eq!(guess("/r/screenshot of a recording.dat"), RecordType::ScreenCapture);
    assert_eq!(guess("/r/voice recording.dat"), RecordType::ScreenRecord);
    assert_eq!(guess("/r/notes.txt"), RecordType::ScreenCapture);
    assert_eq!(guess("/r/README"), RecordType::ScreenCapture);
    assert_eq!(guess("/voice/notes.txt"), RecordType::ScreenCapture);
    assert_eq!(guess("/r/.mp4"), RecordType::ScreenCapture);
    assert_eq!(guess(""), RecordType::ScreenCapture);
}

#[test]
fn small_text_helpers() {
    let mut v = text::to_chars("ab");
    text::append(&mut v, &text::to_chars("cd"));
    text::append_str(&mut v, "-é");
    assert_eq!(text::from_chars(&v), "abcd-é");
    assert!(text::is_digit_char('0') && text::is_digit_char('9'));
    assert!(!text::is_digit_char('a') && !text::is_digit_char('٣') && !text::is_digit_char('/'));
    assert_eq!(text::to_lower_char('A'), 'a');
    assert_eq!(text::to_lower_char('Z'), 'z');
    assert_eq!(text::to_lower_char('a'), 'a');
    assert_eq!(text::to_lower_char('É'), 'É');
    assert_eq!(text::to_lower_char('['), '[');
    assert_eq!(text::to_lower_char('@'), '@');
    assert!(text::matches_at(&v, &text::to_chars("cd"), 2));
    assert!(!text::matches_at(&v, &text::to_chars("cd"), 3));
    assert!(!text::matches_at(&v, &text::to_chars("cd"), 100));
    assert!(text::matches_at(&v, &text::to_chars(""), 6));
    assert!(!text::matches_at(&v, &text::to_chars(""), 7));
    assert!(text::equals(&text::to_chars("abc"), &text::to_chars("abc")));
    assert!(!text::equals(&text::to_chars("abc"), &text::to_chars("abd")));
    assert!(!text::equals(&text::to_chars("abc"), &text::to_chars("ab")));
    assert!(text::is_text(&text::to_chars("png"), "png"));
    assert!(!text::is_text(&text::to_chars("png"), "PNG"));
    assert!(text::find(&text::to_chars("abc"), &text::to_chars("bc")));
}

#[test]
fn counters_are_stripped() {
    let strip = |s: &str| text::from_chars(&looker::naming::strip_counter(&text::to_chars(s)));
    assert_eq!(strip("20240305102030_screen-capture-2"), "20240305102030_screen-capture");
    assert_eq!(strip("20240305102030_screen-capture"), "20240305102030_screen-capture");
    assert_eq!(strip("a-1-22"), "a-1");
    assert_eq!(strip("a-"), "a-");
    assert_eq!(strip("-5"), "");
    assert_eq!(strip("a-1b"), "a-1b");
    assert_eq!(strip(""), "");
}
