//! Which category a file belongs to: by its extension first, by words in its
//! name second, and a screen capture where neither tells.

use vstd::prelude::*;
use crate::paths::{extension_of, file_name_of, joined};
use crate::record_manager::{RecordManager, RecordType};
use crate::text::{
    ascii_lower, contains, find_last, find_str, is_text, lacks, last_index_of, lemma_last_index,
    lemma_last_index_split, lower_char, slice, to_chars, to_lower,
};

verus! {

/// An extension of still images.
pub open spec fn is_image_extension(e: Seq<char>) -> bool {
    e == "png"@ || e == "jpg"@ || e == "jpeg"@ || e == "gif"@ || e == "bmp"@ || e == "webp"@ || e
        == "svg"@ || e == "ico"@
}

/// An extension of videos.
pub open spec fn is_video_extension(e: Seq<char>) -> bool {
    e == "mp4"@ || e == "avi"@ || e == "mov"@ || e == "mkv"@ || e == "wmv"@ || e == "flv"@ || e
        == "webm"@ || e == "m4v"@
}

/// An extension of sound recordings.
pub open spec fn is_audio_extension(e: Seq<char>) -> bool {
    e == "mp3"@ || e == "wav"@ || e == "flac"@ || e == "aac"@ || e == "ogg"@ || e == "wma"@ || e
        == "m4a"@
}

/// The category that an extension in small letters stands for, if any.
pub open spec fn category_of_extension(e: Seq<char>) -> Option<RecordType> {
    if is_image_extension(e) {
        Some(RecordType::ScreenCapture)
    } else if is_video_extension(e) {
        Some(RecordType::ScreenRecord)
    } else if is_audio_extension(e) {
        Some(RecordType::VoiceRecord)
    } else {
        None
    }
}

/// The category that the words in a name in small letters point to.
pub open spec fn category_of_words(name: Seq<char>) -> RecordType {
    if contains(name, "screen-capture"@) || contains(name, "screenshot"@) {
        RecordType::ScreenCapture
    } else if contains(name, "screen-record"@) || contains(name, "recording"@) {
        RecordType::ScreenRecord
    } else if contains(name, "voice-record"@) || contains(name, "voice"@) || contains(
        name,
        "audio"@,
    ) {
        RecordType::VoiceRecord
    } else {
        RecordType::ScreenCapture
    }
}

/// The category of a file name.
pub open spec fn category_of_name(name: Seq<char>) -> RecordType {
    match category_of_extension(ascii_lower(extension_of(name))) {
        Some(category) => category,
        None => category_of_words(ascii_lower(name)),
    }
}

/// The category of the file at `path`.
pub open spec fn category_of(path: Seq<char>) -> RecordType {
    category_of_name(file_name_of(path))
}

fn extension_category(e: &Vec<char>) -> (r: Option<RecordType>)
    ensures
        r == category_of_extension(e@),
{
    if is_text(e, "png") || is_text(e, "jpg") || is_text(e, "jpeg") || is_text(e, "gif")
        || is_text(e, "bmp") || is_text(e, "webp") || is_text(e, "svg") || is_text(e, "ico") {
        Some(RecordType::ScreenCapture)
    } else if is_text(e, "mp4") || is_text(e, "avi") || is_text(e, "mov") || is_text(e, "mkv")
        || is_text(e, "wmv") || is_text(e, "flv") || is_text(e, "webm") || is_text(e, "m4v") {
        Some(RecordType::ScreenRecord)
    } else if is_text(e, "mp3") || is_text(e, "wav") || is_text(e, "flac") || is_text(e, "aac")
        || is_text(e, "ogg") || is_text(e, "wma") || is_text(e, "m4a") {
        Some(RecordType::VoiceRecord)
    } else {
        None
    }
}

fn words_category(name: &Vec<char>) -> (r: RecordType)
    ensures
        r == category_of_words(name@),
{
    if find_str(name, "screen-capture") || find_str(name, "screenshot") {
        RecordType::ScreenCapture
    } else if find_str(name, "screen-record") || find_str(name, "recording") {
        RecordType::ScreenRecord
    } else if find_str(name, "voice-record") || find_str(name, "voice") || find_str(
        name,
        "audio",
    ) {
        RecordType::VoiceRecord
    } else {
        RecordType::ScreenCapture
    }
}

impl RecordManager {
    /// The category of the file at `file_path`. Where the extension in small
    /// letters is one of the known ones, it alone decides.
    pub fn guess_record_type(file_path: &str) -> (category: RecordType)
        ensures
            category == category_of(file_path@),
            category_of_extension(ascii_lower(extension_of(file_name_of(file_path@)))) matches Some(
                known,
            ) ==> category == known,
    {
        let path = to_chars(file_path);
        proof {
            lemma_last_index(path@, '/');
        }
        let start: usize = match find_last(&path, '/') {
            Some(i) => i + 1,
            None => 0,
        };
        let name = slice(&path, start, path.len());
        proof {
            assert(name@ =~= file_name_of(path@));
            lemma_last_index(name@, '.');
        }
        let extension: Vec<char> = match find_last(&name, '.') {
            None => Vec::new(),
            Some(dot) => {
                if dot == 0 {
                    Vec::new()
                } else {
                    let e = slice(&name, dot + 1, name.len());
                    proof {
                        assert(e@ =~= name@.skip(dot + 1));
                    }
                    e
                }
            },
        };
        proof {
            assert(extension@ =~= extension_of(name@));
        }
        let lowered = to_lower(&extension);
        match extension_category(&lowered) {
            Some(category) => category,
            None => {
                let lowered_name = to_lower(&name);
                words_category(&lowered_name)
            },
        }
    }
}

/// An extension that stands for a category, in whatever letters, has
/// neither `.` nor `/`.
pub proof fn lemma_known_extension(extension: Seq<char>)
    requires
        category_of_extension(ascii_lower(extension)) is Some,
    ensures
        lacks(extension, '.'),
        lacks(extension, '/'),
        extension.len() > 0,
{
    reveal_strlit("png");
    reveal_strlit("jpg");
    reveal_strlit("jpeg");
    reveal_strlit("gif");
    reveal_strlit("bmp");
    reveal_strlit("webp");
    reveal_strlit("svg");
    reveal_strlit("ico");
    reveal_strlit("mp4");
    reveal_strlit("avi");
    reveal_strlit("mov");
    reveal_strlit("mkv");
    reveal_strlit("wmv");
    reveal_strlit("flv");
    reveal_strlit("webm");
    reveal_strlit("m4v");
    reveal_strlit("mp3");
    reveal_strlit("wav");
    reveal_strlit("flac");
    reveal_strlit("aac");
    reveal_strlit("ogg");
    reveal_strlit("wma");
    reveal_strlit("m4a");
    let low = ascii_lower(extension);
    assert(low.len() == extension.len());
    assert forall|i: int| 0 <= i < extension.len() implies #[trigger] extension[i] != '.'
        && extension[i] != '/' by {
        assert(low[i] == lower_char(extension[i]));
        let c = low[i];
        assert(('a' <= c && c <= 'z') || ('0' <= c && c <= '9'));
    }
}

/// The extension alone decides: a file whose name ends with `.` and an
/// extension that stands for a category, in whatever letters, is of that
/// category, whatever stands before the `.` and wherever the file lies.
pub proof fn lemma_extension_decides(folder: Seq<char>, stem: Seq<char>, extension: Seq<char>)
    requires
        stem.len() > 0,
        stem.last() != '/',
        category_of_extension(ascii_lower(extension)) is Some,
    ensures
        category_of(joined(folder, stem + seq!['.'] + extension)) == category_of_extension(
            ascii_lower(extension),
        )->0,
{
    lemma_known_extension(extension);
    let path = joined(folder, stem + seq!['.'] + extension);
    let front = crate::paths::dir_prefix(folder) + stem;
    assert(path =~= front + seq!['.'] + extension);
    lemma_last_index(path, '/');
    let cut = last_index_of(path, '/');
    assert(cut < front.len() - 1) by {
        if cut >= front.len() - 1 {
            if cut == front.len() - 1 {
                assert(path[cut] == stem.last());
            } else if cut > front.len() {
                assert(path[cut] == extension[cut - front.len() - 1]);
            }
        }
    }
    let name = file_name_of(path);
    let head = front.skip(cut + 1);
    assert(name =~= head + seq!['.'] + extension);
    lemma_last_index_split(head, '.', extension);
    assert(name.skip(head.len() as int + 1) =~= extension);
    assert(extension_of(name) == extension);
}

} // verus!
