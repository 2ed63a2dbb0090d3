//! Finding the outputs of projects: files named after a date and a
//! project that lie in a folder of that project.

use vstd::prelude::*;
use crate::executor::pair_views;
use crate::naming::without_extension;
use crate::paths::{extension_of, file_name_of, parent_of};
use crate::text::{
    all_digits, ascii_lower, contains, digits_in, find, find_first, find_last, first_index_of,
    from_chars, is_text, lemma_first_index, lemma_last_index, slice, to_chars, to_lower,
};

verus! {

/// Date and project of a name of the form of eight digits, `_` and the
/// project, with or without an extension.
pub open spec fn project_pattern(name: Seq<char>) -> Option<(Seq<char>, Seq<char>)> {
    let stem = without_extension(name);
    if first_index_of(stem, '_') == 8 && all_digits(stem.take(8)) {
        Some((stem.take(8), stem.skip(9)))
    } else {
        None
    }
}

/// An extension of the media that count as outputs.
pub open spec fn is_media_extension(e: Seq<char>) -> bool {
    e == "mp4"@ || e == "avi"@ || e == "mov"@ || e == "mkv"@ || e == "wmv"@ || e == "flv"@ || e
        == "webm"@ || e == "mp3"@ || e == "wav"@ || e == "flac"@ || e == "aac"@ || e == "ogg"@ || e
        == "png"@ || e == "jpg"@ || e == "jpeg"@ || e == "gif"@ || e == "bmp"@ || e == "webp"@ || e
        == "pdf"@ || e == "psd"@ || e == "ai"@ || e == "svg"@
}

/// The key under which the file at `path` counts as the output of a
/// project, if it does: its name has the form of date and project, its
/// extension is one of media, and the folder that it lies in is named after
/// the same project, or has the project in its name.
pub open spec fn output_key(path: Seq<char>) -> Option<Seq<char>> {
    let name = file_name_of(path);
    if name.len() == 0 || !is_media_extension(ascii_lower(extension_of(name))) {
        None
    } else {
        match (project_pattern(name), parent_of(path)) {
            (Some(own), Some(folder)) => {
                let folder_name = file_name_of(folder);
                if folder_name.len() == 0 {
                    None
                } else {
                    match project_pattern(folder_name) {
                        Some(named) if named.1 == own.1 => Some(named.0 + seq!['_'] + named.1),
                        _ => if contains(folder_name, own.1) {
                            Some(own.0 + seq!['_'] + own.1)
                        } else {
                            None
                        },
                    }
                }
            },
            _ => None,
        }
    }
}

/// `list` with `value` under `key`: in the place of the value that was
/// under that key, or at the end.
pub open spec fn with_entry(
    list: Seq<(Seq<char>, Seq<char>)>,
    key: Seq<char>,
    value: Seq<char>,
) -> Seq<(Seq<char>, Seq<char>)>
    decreases list.len(),
{
    if list.len() == 0 {
        seq![(key, value)]
    } else if list[0].0 == key {
        seq![(key, value)] + list.skip(1)
    } else {
        seq![list[0]] + with_entry(list.skip(1), key, value)
    }
}

/// The outputs among the first `count` of `files`: for each key the last
/// file that counts under it.
pub open spec fn matching_outputs(files: Seq<Seq<char>>, count: nat) -> Seq<(Seq<char>, Seq<char>)>
    decreases count,
{
    if count == 0 {
        Seq::<(Seq<char>, Seq<char>)>::empty()
    } else {
        let before = matching_outputs(files, (count - 1) as nat);
        match output_key(files[count - 1]) {
            Some(key) => with_entry(before, key, files[count - 1]),
            None => before,
        }
    }
}

/// Where the walk over `list` meets `key` at `at`, the value there is
/// replaced.
pub proof fn lemma_with_entry_found(
    list: Seq<(Seq<char>, Seq<char>)>,
    key: Seq<char>,
    value: Seq<char>,
    at: int,
)
    requires
        0 <= at < list.len(),
        list[at].0 == key,
        forall|j: int| 0 <= j < at ==> (#[trigger] list[j]).0 != key,
    ensures
        with_entry(list, key, value) == list.update(at, (key, value)),
    decreases at,
{
    if at == 0 {
        assert(seq![(key, value)] + list.skip(1) =~= list.update(0, (key, value)));
    } else {
        let rest = list.skip(1);
        assert forall|j: int| 0 <= j < at - 1 implies (#[trigger] rest[j]).0 != key by {
            assert(rest[j] == list[j + 1]);
        }
        lemma_with_entry_found(rest, key, value, at - 1);
        assert(seq![list[0]] + rest.update(at - 1, (key, value)) =~= list.update(
            at,
            (key, value),
        ));
    }
}

/// Where `key` is not in `list`, the value goes to the end.
pub proof fn lemma_with_entry_new(list: Seq<(Seq<char>, Seq<char>)>, key: Seq<char>, value: Seq<char>)
    requires
        forall|j: int| 0 <= j < list.len() ==> (#[trigger] list[j]).0 != key,
    ensures
        with_entry(list, key, value) == list.push((key, value)),
    decreases list.len(),
{
    if list.len() == 0 {
        assert(seq![(key, value)] =~= list.push((key, value)));
    } else {
        let rest = list.skip(1);
        assert forall|j: int| 0 <= j < rest.len() implies (#[trigger] rest[j]).0 != key by {
            assert(rest[j] == list[j + 1]);
        }
        lemma_with_entry_new(rest, key, value);
        assert(seq![list[0]] + rest.push((key, value)) =~= list.push((key, value)));
    }
}

fn pattern_chars(name: &Vec<char>) -> (r: Option<(Vec<char>, Vec<char>)>)
    ensures
        match r {
            Some(pair) => project_pattern(name@) == Some((pair.0@, pair.1@)),
            None => project_pattern(name@) is None,
        },
{
    proof {
        lemma_last_index(name@, '.');
    }
    let stem = match find_last(name, '.') {
        None => slice(name, 0, name.len()),
        Some(dot) => slice(name, 0, dot),
    };
    proof {
        assert(stem@ =~= without_extension(name@));
        lemma_first_index(stem@, '_');
    }
    match find_first(&stem, '_') {
        Some(cut) => {
            if cut == 8 && digits_in(&stem, 0, 8) {
                let date = slice(&stem, 0, 8);
                let project = slice(&stem, 9, stem.len());
                proof {
                    assert(stem@.take(8) =~= stem@.subrange(0, 8));
                    assert(stem@.skip(9) =~= stem@.subrange(9, stem.len() as int));
                }
                Some((date, project))
            } else {
                proof {
                    assert(stem@.take(8) =~= stem@.subrange(0, 8));
                }
                None
            }
        },
        None => None,
    }
}

fn media_extension(e: &Vec<char>) -> (b: bool)
    ensures
        b == is_media_extension(e@),
{
    is_text(e, "mp4") || is_text(e, "avi") || is_text(e, "mov") || is_text(e, "mkv") || is_text(
        e,
        "wmv",
    ) || is_text(e, "flv") || is_text(e, "webm") || is_text(e, "mp3") || is_text(e, "wav")
        || is_text(e, "flac") || is_text(e, "aac") || is_text(e, "ogg") || is_text(e, "png")
        || is_text(e, "jpg") || is_text(e, "jpeg") || is_text(e, "gif") || is_text(e, "bmp")
        || is_text(e, "webp") || is_text(e, "pdf") || is_text(e, "psd") || is_text(e, "ai")
        || is_text(e, "svg")
}

fn name_chars(path: &Vec<char>) -> (name: Vec<char>)
    ensures
        name@ == file_name_of(path@),
{
    proof {
        lemma_last_index(path@, '/');
    }
    let start: usize = match find_last(path, '/') {
        Some(i) => i + 1,
        None => 0,
    };
    let name = slice(path, start, path.len());
    proof {
        assert(name@ =~= file_name_of(path@));
    }
    name
}

fn parent_chars(path: &Vec<char>) -> (folder: Option<Vec<char>>)
    ensures
        match folder {
            Some(f) => parent_of(path@) == Some(f@),
            None => parent_of(path@) is None,
        },
{
    proof {
        lemma_last_index(path@, '/');
    }
    match find_last(path, '/') {
        None => {
            if path.len() == 0 {
                None
            } else {
                Some(Vec::new())
            }
        },
        Some(cut) => {
            if cut == 0 {
                if path.len() == 1 {
                    None
                } else {
                    let r = slice(path, 0, 1);
                    proof {
                        assert(r@ =~= seq!['/']);
                    }
                    Some(r)
                }
            } else {
                let r = slice(path, 0, cut);
                proof {
                    assert(r@ =~= path@.take(cut as int));
                }
                Some(r)
            }
        },
    }
}

fn key_of(path: &Vec<char>) -> (key: Option<Vec<char>>)
    ensures
        match key {
            Some(k) => output_key(path@) == Some(k@),
            None => output_key(path@) is None,
        },
{
    let name = name_chars(path);
    if name.len() == 0 {
        return None;
    }
    proof {
        lemma_last_index(name@, '.');
    }
    let extension: Vec<char> = match find_last(&name, '.') {
        None => Vec::new(),
        Some(dot) => {
            if dot == 0 {
                Vec::new()
            } else {
                slice(&name, dot + 1, name.len())
            }
        },
    };
    proof {
        assert(extension@ =~= extension_of(name@));
    }
    if !media_extension(&to_lower(&extension)) {
        return None;
    }
    let own = match pattern_chars(&name) {
        Some(pair) => pair,
        None => {
            return None;
        },
    };
    let folder = match parent_chars(path) {
        Some(f) => f,
        None => {
            return None;
        },
    };
    let folder_name = name_chars(&folder);
    if folder_name.len() == 0 {
        return None;
    }
    match pattern_chars(&folder_name) {
        Some(named) => {
            if crate::text::equals(&named.1, &own.1) {
                let mut key = named.0;
                key.push('_');
                crate::text::append(&mut key, &named.1);
                return Some(key);
            }
        },
        None => {},
    }
    if find(&folder_name, &own.1) {
        let mut key = own.0;
        key.push('_');
        crate::text::append(&mut key, &own.1);
        Some(key)
    } else {
        None
    }
}

/// Finds the outputs of projects.
pub struct GalleryManager;

impl GalleryManager {
    /// Date and project of `name`, where it has the form of eight digits,
    /// `_` and a project, with or without an extension.
    pub fn extract_project_pattern(name: &str) -> (r: Option<(String, String)>)
        ensures
            match r {
                Some(pair) => project_pattern(name@) == Some((pair.0@, pair.1@)),
                None => project_pattern(name@) is None,
            },
    {
        match pattern_chars(&to_chars(name)) {
            Some(pair) => Some((from_chars(&pair.0), from_chars(&pair.1))),
            None => None,
        }
    }

    /// The outputs among `files`: key and path, for each key the last file
    /// that counts under it, in the order in which the keys first came up.
    pub fn find_matching_outputs(files: &Vec<String>) -> (matches: Vec<(String, String)>)
        ensures
            pair_views(matches@) == matching_outputs(
                crate::record_manager::text_views(files@),
                files.len() as nat,
            ),
    {
        let ghost all = crate::record_manager::text_views(files@);
        let mut matches: Vec<(String, String)> = Vec::new();
        let mut i: usize = 0;
        proof {
            assert(pair_views(matches@) =~= matching_outputs(all, 0));
        }
        while i < files.len()
            invariant
                i <= files.len(),
                all == crate::record_manager::text_views(files@),
                pair_views(matches@) == matching_outputs(all, i as nat),
            decreases files.len() - i,
        {
            let ghost before = pair_views(matches@);
            proof {
                assert(all[i as int] == files@[i as int]@);
            }
            match key_of(&to_chars(files[i].as_str())) {
                None => {},
                Some(key_chars) => {
                    let key = from_chars(&key_chars);
                    let mut at: usize = 0;
                    let mut found = false;
                    while at < matches.len() && !found
                        invariant
                            at <= matches.len(),
                            before == pair_views(matches@),
                            forall|j: int| 0 <= j < at ==> (#[trigger] before[j]).0 != key@,
                            found ==> at < matches.len() && before[at as int].0 == key@,
                        decreases matches.len() - at, if found { 0int } else { 1int },
                    {
                        assert(before[at as int] == (matches@[at as int].0@, matches@[at as int].1@));
                        if matches[at].0 == key {
                            found = true;
                        } else {
                            at += 1;
                        }
                    }
                    if found {
                        proof {
                            lemma_with_entry_found(before, key@, all[i as int], at as int);
                        }
                        matches.set(at, (key, files[i].clone()));
                        proof {
                            assert(pair_views(matches@) =~= before.update(
                                at as int,
                                (key@, all[i as int]),
                            ));
                        }
                    } else {
                        proof {
                            lemma_with_entry_new(before, key@, all[i as int]);
                        }
                        matches.push((key, files[i].clone()));
                        proof {
                            assert(pair_views(matches@) =~= before.push((key@, all[i as int])));
                        }
                    }
                },
            }
            i += 1;
        }
        matches
    }
}

} // verus!
