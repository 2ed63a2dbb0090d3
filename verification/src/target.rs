//! Where a file goes: the folder that its date selects, the canonical name
//! that its date and category give it, and a path that nothing else has.

use vstd::prelude::*;
use crate::naming::{is_canonical_name, lemma_canonical_from_parts, strip_counter, without_counter};
use crate::paths::{dir_prefix, join, joined};
use crate::record_manager::{
    lemma_prefix_facts, text_views, PlanError, RecordManager, RecordType,
};
use crate::scanner::{listed, views, DriveScanner, FileInfo, FileInfoView};
use crate::text::{
    all_digits, append, append_str, decimal, find_last, from_chars, int_text, is_digit, lacks,
    last_index_of, lemma_digits_lack_signs, lemma_last_index, lemma_last_index_is,
    lemma_last_index_split, push_decimal, slice, to_chars,
};
use crate::timestamp::{compact_text, lemma_compact_text_digits, month_text, CivilTime};

verus! {

/// The folder for a file modified at `modified`, below the category's
/// folder `record_path`: the month's folder, and for a year before
/// `current_year` the year's folder around it.
pub open spec fn target_folder_of(
    record_path: Seq<char>,
    modified: CivilTime,
    current_year: int,
) -> Seq<char> {
    if modified.year < current_year {
        joined(record_path, int_text(modified.year) + seq!['/'] + month_text(modified))
    } else {
        joined(record_path, month_text(modified))
    }
}

/// The name that a file gets from its date, the word of its category and
/// its extension; without counter.
pub open spec fn record_filename_of(
    extension: Seq<char>,
    modified: CivilTime,
    prefix: Seq<char>,
) -> Seq<char> {
    if extension.len() == 0 {
        compact_text(modified) + seq!['_'] + prefix
    } else {
        compact_text(modified) + seq!['_'] + prefix + seq!['.'] + extension
    }
}

/// A file name cut at its last `.`: what stands before it, and what stands
/// after it where there is one.
pub open spec fn split_extension(base: Seq<char>) -> (Seq<char>, Option<Seq<char>>) {
    let dot = last_index_of(base, '.');
    if dot < 0 {
        (base, None)
    } else {
        (base.take(dot), Some(base.skip(dot + 1)))
    }
}

/// `base` with the counter `index`: a counter that the name has already is
/// dropped, then `-` and the number go in front of the extension.
pub open spec fn numbered_name(base: Seq<char>, index: nat) -> Seq<char> {
    let numbered = without_counter(split_extension(base).0) + seq!['-'] + decimal(index);
    match split_extension(base).1 {
        Some(extension) => numbered + seq!['.'] + extension,
        None => numbered,
    }
}

/// `path` is in use: the scan lists it, or an earlier action goes there.
pub open spec fn taken(entries: Seq<FileInfoView>, planned: Seq<Seq<char>>, path: Seq<char>) -> bool {
    listed(entries, path) || planned.contains(path)
}

/// The smallest counter from `from` up to the largest that 32 bits hold
/// whose numbered name is free in `folder`.
pub open spec fn first_free_index(
    folder: Seq<char>,
    base: Seq<char>,
    entries: Seq<FileInfoView>,
    planned: Seq<Seq<char>>,
    from: nat,
) -> Option<nat>
    decreases 0x1_0000_0000 - from,
{
    if from > 0xffff_ffff {
        None
    } else if !taken(entries, planned, joined(folder, numbered_name(base, from))) {
        Some(from)
    } else {
        first_free_index(folder, base, entries, planned, from + 1)
    }
}

/// The path for `base` in `folder`: under that very name where it is free,
/// else under the numbered name with the smallest free counter from 2 on.
pub open spec fn unique_target(
    folder: Seq<char>,
    base: Seq<char>,
    entries: Seq<FileInfoView>,
    planned: Seq<Seq<char>>,
) -> Option<Seq<char>> {
    if !taken(entries, planned, joined(folder, base)) {
        Some(joined(folder, base))
    } else {
        match first_free_index(folder, base, entries, planned, 2) {
            Some(index) => Some(joined(folder, numbered_name(base, index))),
            None => None,
        }
    }
}

fn numbered(base: &Vec<char>, index: u32) -> (name: Vec<char>)
    ensures
        name@ == numbered_name(base@, index as nat),
{
    proof {
        lemma_last_index(base@, '.');
    }
    match find_last(base, '.') {
        None => {
            let mut name = strip_counter(base);
            name.push('-');
            push_decimal(&mut name, index as u64);
            proof {
                assert(name@ =~= numbered_name(base@, index as nat));
            }
            name
        },
        Some(dot) => {
            let stem = slice(base, 0, dot);
            let extension = slice(base, dot + 1, base.len());
            proof {
                assert(stem@ =~= base@.take(dot as int));
                assert(extension@ =~= base@.skip(dot + 1));
            }
            let mut name = strip_counter(&stem);
            name.push('-');
            push_decimal(&mut name, index as u64);
            name.push('.');
            append(&mut name, &extension);
            proof {
                assert(name@ =~= numbered_name(base@, index as nat));
            }
            name
        },
    }
}

fn is_planned(planned: &Vec<String>, path: &String) -> (b: bool)
    ensures
        b == text_views(planned@).contains(path@),
{
    let mut i: usize = 0;
    while i < planned.len()
        invariant
            i <= planned.len(),
            forall|j: int| 0 <= j < i ==> text_views(planned@)[j] != path@,
        decreases planned.len() - i,
    {
        if planned[i] == *path {
            assert(text_views(planned@)[i as int] == path@);
            return true;
        }
        i += 1;
    }
    false
}

impl RecordManager {
    /// The folder for `file` below the category's folder `record_path`.
    pub fn determine_target_folder(file: &FileInfo, record_path: &str, current_year: i32) -> (folder:
        String)
        ensures
            folder@ == target_folder_of(record_path@, file@.modified, current_year as int),
    {
        let month = file.modified.month_folder();
        if file.modified.year() < current_year {
            let mut inner = to_chars(file.modified.year_folder().as_str());
            inner.push('/');
            append_str(&mut inner, month.as_str());
            let inner_text = from_chars(&inner);
            join(record_path, inner_text.as_str())
        } else {
            join(record_path, month.as_str())
        }
    }

    /// The canonical name for `file` in the category, without counter. It
    /// is a canonical name of the category where the file has an extension
    /// without `.` and its year has four digits.
    pub fn generate_record_filename(file: &FileInfo, record_type: &RecordType) -> (name: String)
        ensures
            name@ == record_filename_of(file@.extension, file@.modified, record_type.prefix()),
            file@.modified.valid(),
            file@.extension.len() > 0 && lacks(file@.extension, '.') && 0 <= file@.modified.year
                <= 9999 ==> is_canonical_name(name@, record_type.prefix()),
    {
        let year = file.modified.year();
        proof {
            if file@.extension.len() > 0 && lacks(file@.extension, '.') && 0 <= year <= 9999 {
                lemma_generated_name_is_canonical(
                    file@.extension,
                    file@.modified,
                    record_type.prefix(),
                );
            }
        }
        let mut name = to_chars(file.modified.compact().as_str());
        name.push('_');
        append_str(&mut name, record_type.naming_prefix());
        let extension = to_chars(file.extension.as_str());
        if extension.len() > 0 {
            name.push('.');
            append(&mut name, &extension);
        }
        proof {
            assert(name@ =~= record_filename_of(
                file@.extension,
                file@.modified,
                record_type.prefix(),
            ));
        }
        from_chars(&name)
    }

    /// Whether `path` is in use: listed by the scan, or among the targets
    /// planned so far.
    pub fn is_taken(path: &String, planned_targets: &Vec<String>, entries: &Vec<FileInfo>) -> (b:
        bool)
        ensures
            b == taken(views(entries@), text_views(planned_targets@), path@),
    {
        is_planned(planned_targets, path) || DriveScanner::has_path(entries, path.as_str())
    }

    /// The smallest counter from `from` on whose numbered name is free in
    /// `target_folder`; none where all of them are taken.
    pub fn first_free_suffix(
        target_folder: &str,
        base_filename: &str,
        from: u32,
        planned_targets: &Vec<String>,
        entries: &Vec<FileInfo>,
    ) -> (found: Option<u32>)
        ensures
            match found {
                Some(index) => first_free_index(
                    target_folder@,
                    base_filename@,
                    views(entries@),
                    text_views(planned_targets@),
                    from as nat,
                ) == Some(index as nat),
                None => first_free_index(
                    target_folder@,
                    base_filename@,
                    views(entries@),
                    text_views(planned_targets@),
                    from as nat,
                ) is None,
            },
    {
        let base = to_chars(base_filename);
        let mut index: u32 = from;
        loop
            invariant
                base@ == base_filename@,
                from <= index,
                first_free_index(
                    target_folder@,
                    base_filename@,
                    views(entries@),
                    text_views(planned_targets@),
                    from as nat,
                ) == first_free_index(
                    target_folder@,
                    base_filename@,
                    views(entries@),
                    text_views(planned_targets@),
                    index as nat,
                ),
            decreases u32::MAX - index,
        {
            let name = from_chars(&numbered(&base, index));
            let candidate = join(target_folder, name.as_str());
            if !Self::is_taken(&candidate, planned_targets, entries) {
                return Some(index);
            }
            match index.checked_add(1) {
                Some(next) => {
                    index = next;
                },
                None => {
                    proof {
                        assert(first_free_index(
                            target_folder@,
                            base_filename@,
                            views(entries@),
                            text_views(planned_targets@),
                            (index + 1) as nat,
                        ) is None);
                    }
                    return None;
                },
            }
        }
    }

    /// A path for `base_filename` in `target_folder` that nothing has: not a
    /// listed entry, not a target planned before. The path is added to the
    /// planned targets.
    pub fn unique_target_path(
        target_folder: &str,
        base_filename: &str,
        planned_targets: &mut Vec<String>,
        entries: &Vec<FileInfo>,
    ) -> (r: Result<String, PlanError>)
        ensures
            match r {
                Ok(path) => {
                    &&& unique_target(
                        target_folder@,
                        base_filename@,
                        views(entries@),
                        text_views(old(planned_targets)@),
                    ) == Some(path@)
                    &&& text_views(final(planned_targets)@) == text_views(
                        old(planned_targets)@,
                    ).push(path@)
                },
                Err(e) => {
                    &&& e == PlanError::SuffixExhaustion
                    &&& unique_target(
                        target_folder@,
                        base_filename@,
                        views(entries@),
                        text_views(old(planned_targets)@),
                    ) is None
                    &&& final(planned_targets)@ == old(planned_targets)@
                },
            },
    {
        let ghost before = text_views(planned_targets@);
        let candidate = join(target_folder, base_filename);
        if !Self::is_taken(&candidate, planned_targets, entries) {
            planned_targets.push(candidate.clone());
            proof {
                assert(text_views(planned_targets@) =~= before.push(candidate@));
            }
            return Ok(candidate);
        }
        match Self::first_free_suffix(target_folder, base_filename, 2, planned_targets, entries) {
            Some(index) => {
                let base = to_chars(base_filename);
                let name = from_chars(&numbered(&base, index));
                let path = join(target_folder, name.as_str());
                planned_targets.push(path.clone());
                proof {
                    assert(text_views(planned_targets@) =~= before.push(path@));
                }
                Ok(path)
            },
            None => Err(PlanError::SuffixExhaustion),
        }
    }
}

/// A generated name is a canonical name of its category, for a moment from
/// year 0 to year 9999 and an extension that is not empty and has no `.`.
pub proof fn lemma_generated_name_is_canonical(
    extension: Seq<char>,
    modified: CivilTime,
    prefix: Seq<char>,
)
    requires
        modified.valid(),
        0 <= modified.year <= 9999,
        extension.len() > 0,
        lacks(extension, '.'),
    ensures
        is_canonical_name(record_filename_of(extension, modified, prefix), prefix),
{
    lemma_compact_text_digits(modified);
    lemma_canonical_from_parts(compact_text(modified), prefix, Seq::<char>::empty(), extension);
    assert(compact_text(modified) + seq!['_'] + prefix + Seq::<char>::empty() =~= compact_text(
        modified,
    ) + seq!['_'] + prefix);
}

/// What the first free counter is: free itself, with every counter before
/// it taken; and none where every counter is taken.
pub proof fn lemma_first_free_index(
    folder: Seq<char>,
    base: Seq<char>,
    entries: Seq<FileInfoView>,
    planned: Seq<Seq<char>>,
    from: nat,
)
    ensures
        match first_free_index(folder, base, entries, planned, from) {
            Some(index) => {
                &&& from <= index <= 0xffff_ffff
                &&& !taken(entries, planned, joined(folder, numbered_name(base, index)))
                &&& forall|k: nat|
                    from <= k < index ==> taken(
                        entries,
                        planned,
                        joined(folder, #[trigger] numbered_name(base, k)),
                    )
            },
            None => forall|k: nat|
                from <= k <= 0xffff_ffff ==> taken(
                    entries,
                    planned,
                    joined(folder, #[trigger] numbered_name(base, k)),
                ),
        },
    decreases 0x1_0000_0000 - from,
{
    if from <= 0xffff_ffff && taken(entries, planned, joined(folder, numbered_name(base, from))) {
        lemma_first_free_index(folder, base, entries, planned, from + 1);
    }
}

/// A path that `unique_target` gives is not in use, and is the wanted name
/// in the folder, or that name with a counter from 2 on.
pub proof fn lemma_unique_target(
    folder: Seq<char>,
    base: Seq<char>,
    entries: Seq<FileInfoView>,
    planned: Seq<Seq<char>>,
)
    ensures
        unique_target(folder, base, entries, planned) matches Some(target) ==> {
            &&& !taken(entries, planned, target)
            &&& (target == joined(folder, base) || exists|index: nat|
                2 <= index && target == joined(folder, #[trigger] numbered_name(base, index)))
        },
{
    lemma_first_free_index(folder, base, entries, planned, 2);
}

/// A text that ends with the word of a category and a counter or none is,
/// without counter, the text up to the end of the word.
pub proof fn lemma_without_counter(front: Seq<char>, category: RecordType, counter: Seq<char>)
    requires
        counter.len() == 0 || (counter.len() >= 2 && counter[0] == '-' && all_digits(
            counter.skip(1),
        )),
    ensures
        without_counter(front + category.prefix() + counter) == front + category.prefix(),
{
    let prefix = category.prefix();
    let stem = front + prefix + counter;
    lemma_prefix_facts(category);
    let word = front + prefix;
    if counter.len() == 0 {
        assert(stem =~= word);
        let dash = front.len() + prefix.len() - 1 - match category {
            RecordType::ScreenCapture => 7int,
            _ => 6int,
        };
        assert(stem[dash] == prefix[dash - front.len()]);
        assert forall|j: int| dash < j < stem.len() implies #[trigger] stem[j] != '-' by {
            assert(stem[j] == prefix[j - front.len()]);
        }
        lemma_last_index_is(stem, '-', dash);
        assert(stem.skip(dash + 1)[0] == prefix[dash + 1 - front.len()]);
        assert(!is_digit(stem.skip(dash + 1)[0]));
        assert(without_counter(stem) == word);
    } else {
        let digits = counter.skip(1);
        lemma_digits_lack_signs(digits);
        assert(stem =~= word + seq!['-'] + digits);
        lemma_last_index_split(word, '-', digits);
        assert(stem.skip(word.len() as int + 1) =~= digits);
        assert(stem.take(word.len() as int) =~= word);
        assert(without_counter(stem) == word);
    }
}

/// The numbered name of a name that ends with the word of a category, a
/// counter or none, `.` and an extension: the counter is replaced.
pub proof fn lemma_numbered_name(
    front: Seq<char>,
    category: RecordType,
    counter: Seq<char>,
    extension: Seq<char>,
    index: nat,
)
    requires
        counter.len() == 0 || (counter.len() >= 2 && counter[0] == '-' && all_digits(
            counter.skip(1),
        )),
        lacks(extension, '.'),
    ensures
        numbered_name(front + category.prefix() + counter + seq!['.'] + extension, index) == front
            + category.prefix() + seq!['-'] + decimal(index) + seq!['.'] + extension,
{
    let stem = front + category.prefix() + counter;
    let base = stem + seq!['.'] + extension;
    lemma_last_index_split(stem, '.', extension);
    assert(base.take(stem.len() as int) =~= stem);
    assert(base.skip(stem.len() as int + 1) =~= extension);
    lemma_without_counter(front, category, counter);
}

/// Where a generated name, the same name with counter 2 and the same name
/// with counter 3 are free in a folder, three files that ask for that name
/// there get exactly these three, in this order.
pub proof fn lemma_collision_suffixing(
    folder: Seq<char>,
    extension: Seq<char>,
    modified: CivilTime,
    category: RecordType,
    entries: Seq<FileInfoView>,
    planned: Seq<Seq<char>>,
)
    requires
        extension.len() > 0,
        lacks(extension, '.'),
        !taken(
            entries,
            planned,
            joined(folder, record_filename_of(extension, modified, category.prefix())),
        ),
        !taken(
            entries,
            planned,
            joined(
                folder,
                compact_text(modified) + seq!['_'] + category.prefix() + seq!['-', '2'] + seq!['.']
                    + extension,
            ),
        ),
        !taken(
            entries,
            planned,
            joined(
                folder,
                compact_text(modified) + seq!['_'] + category.prefix() + seq!['-', '3'] + seq!['.']
                    + extension,
            ),
        ),
    ensures
        ({
            let name = record_filename_of(extension, modified, category.prefix());
            let stem = compact_text(modified) + seq!['_'] + category.prefix();
            let first = joined(folder, name);
            let second = joined(folder, stem + seq!['-', '2'] + seq!['.'] + extension);
            let third = joined(folder, stem + seq!['-', '3'] + seq!['.'] + extension);
            &&& unique_target(folder, name, entries, planned) == Some(first)
            &&& unique_target(folder, name, entries, planned.push(first)) == Some(second)
            &&& unique_target(folder, name, entries, planned.push(first).push(second)) == Some(
                third,
            )
        }),
{
    let name = record_filename_of(extension, modified, category.prefix());
    let front = compact_text(modified) + seq!['_'];
    let stem = front + category.prefix();
    let name2 = stem + seq!['-', '2'] + seq!['.'] + extension;
    let name3 = stem + seq!['-', '3'] + seq!['.'] + extension;
    let first = joined(folder, name);
    let second = joined(folder, name2);
    let third = joined(folder, name3);
    let none = Seq::<char>::empty();
    assert(front + category.prefix() + none + seq!['.'] + extension =~= name);
    lemma_numbered_name(front, category, none, extension, 2);
    lemma_numbered_name(front, category, none, extension, 3);
    assert(decimal(2) =~= seq!['2']);
    assert(decimal(3) =~= seq!['3']);
    assert(numbered_name(name, 2) =~= name2);
    assert(numbered_name(name, 3) =~= name3);
    let p = dir_prefix(folder).len();
    assert(first.len() == p + name.len());
    assert(second.len() == p + name.len() + 2);
    assert(third[p as int + stem.len() as int + 1] == '3');
    assert(second[p as int + stem.len() as int + 1] == '2');
    let one = planned.push(first);
    let two = one.push(second);
    assert(one.contains(first)) by {
        assert(one[planned.len() as int] == first);
    }
    assert(two.contains(first)) by {
        assert(two[planned.len() as int] == first);
    }
    assert(two.contains(second)) by {
        assert(two[planned.len() as int + 1] == second);
    }
    assert(!one.contains(second));
    assert(!two.contains(third));
    assert(first_free_index(folder, name, entries, one, 2) == Some(2nat));
    assert(first_free_index(folder, name, entries, two, 3) == Some(3nat));
    assert(first_free_index(folder, name, entries, two, 2) == Some(3nat));
}

} // verus!
