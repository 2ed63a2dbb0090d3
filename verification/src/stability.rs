//! A file that has been moved by a plan is where a plan wants it: the name
//! that it got is a canonical name of its category, and the category that
//! its new path shows is the one that its old path showed.

use vstd::prelude::*;
use crate::classify::{category_of, category_of_extension, category_of_name, category_of_words};
use crate::naming::{
    is_canonical_name, is_record_name, lemma_canonical_from_parts, naming_prefix_of,
    second_segment, valid_counter, without_extension,
};
use crate::paths::{extension_of, joined, lemma_file_name_joined, lemma_file_name_lacks_slash};
use crate::plan_laws::routed;
use crate::planner::{needs_rename, wanted_folder, wanted_name, PlanContext};
use crate::record_manager::{lemma_prefix_facts, RecordType};
use crate::scanner::FileInfoView;
use crate::fs_model::moved_file;
use crate::target::{lemma_numbered_name, lemma_without_counter, numbered_name};
use crate::text::{
    all_digits, ascii_lower, contains, decimal, first_index_of, has_at, is_digit, lacks,
    last_index_of, lemma_decimal, lemma_digits_lack_signs, lemma_first_index,
    lemma_first_index_split, lemma_last_index, lemma_last_index_split, lower_char,
};
use crate::timestamp::{compact_text, lemma_compact_text_digits};

verus! {

/// A name made of a stamp, `_`, a word, a counter or none, `.` and an
/// extension.
pub open spec fn shaped_name(
    stamp: Seq<char>,
    prefix: Seq<char>,
    counter: Seq<char>,
    extension: Seq<char>,
) -> Seq<char> {
    stamp + seq!['_'] + prefix + counter + seq!['.'] + extension
}

/// Nothing, or `-` and digits.
pub open spec fn counter_like(counter: Seq<char>) -> bool {
    counter.len() == 0 || (counter.len() >= 2 && counter[0] == '-' && all_digits(counter.skip(1)))
}

/// A canonical name is made of its parts.
pub proof fn lemma_canonical_parts(name: Seq<char>, prefix: Seq<char>)
    requires
        is_canonical_name(name, prefix),
    ensures
        ({
            let dot = last_index_of(name, '.');
            let head = 15 + prefix.len();
            &&& name == shaped_name(
                name.take(14),
                prefix,
                name.subrange(head as int, dot),
                name.skip(dot + 1),
            )
            &&& all_digits(name.take(14))
            &&& valid_counter(name.subrange(head as int, dot))
            &&& name.skip(dot + 1).len() > 0
            &&& lacks(name.skip(dot + 1), '.')
            &&& extension_of(name) == name.skip(dot + 1)
        }),
{
    let dot = last_index_of(name, '.');
    let head = 15 + prefix.len();
    lemma_last_index(name, '.');
    let built = shaped_name(
        name.take(14),
        prefix,
        name.subrange(head as int, dot),
        name.skip(dot + 1),
    );
    assert(built.len() == name.len());
    assert forall|t: int| 0 <= t < name.len() implies built[t] == name[t] by {
        if 15 <= t < head {
            assert(name[15 + (t - 15)] == prefix[t - 15]);
        }
    }
    assert(built =~= name);
    assert forall|t: int| 0 <= t < name.skip(dot + 1).len() implies #[trigger] name.skip(dot + 1)[t]
        != '.' by {
        assert(name.skip(dot + 1)[t] == name[dot + 1 + t]);
    }
}

/// The head of a shaped name with the word of a category has no capital
/// letters, and only its word has characters other than digits, `_` and
/// `.`, apart from the `-` of its counter.
pub proof fn lemma_head(
    stamp: Seq<char>,
    category: RecordType,
    counter: Seq<char>,
    extension: Seq<char>,
)
    requires
        stamp.len() == 14,
        all_digits(stamp),
        counter_like(counter),
    ensures
        ({
            let name = shaped_name(stamp, category.prefix(), counter, extension);
            let word_end = 15 + category.prefix().len();
            let head = word_end + counter.len() + 1;
            &&& name.len() == head + extension.len()
            &&& forall|t: int| 0 <= t < 14 ==> is_digit(#[trigger] name[t])
            &&& name[14] == '_'
            &&& forall|t: int|
                15 <= t < word_end ==> #[trigger] name[t] == category.prefix()[t - 15]
            &&& counter.len() > 0 ==> name[word_end as int] == '-'
            &&& forall|t: int| word_end < t < head - 1 ==> is_digit(#[trigger] name[t])
            &&& name[head - 1] == '.'
            &&& forall|t: int| 0 <= t < head ==> lower_char(#[trigger] name[t]) == name[t]
            &&& forall|t: int| 0 <= t < extension.len() ==> name[head + t] == #[trigger] extension[t]
        }),
{
    let name = shaped_name(stamp, category.prefix(), counter, extension);
    let prefix = category.prefix();
    let word_end = 15 + prefix.len();
    let head = word_end + counter.len() + 1;
    lemma_prefix_facts(category);
    assert forall|t: int| 0 <= t < 14 implies is_digit(#[trigger] name[t]) by {
        assert(name[t] == stamp[t]);
    }
    assert forall|t: int| word_end < t < head - 1 implies is_digit(#[trigger] name[t]) by {
        assert(name[t] == counter[t - word_end]);
        assert(counter.skip(1)[t - word_end - 1] == counter[t - word_end]);
    }
    assert forall|t: int| 0 <= t < head implies lower_char(#[trigger] name[t]) == name[t] by {
        if t < 14 {
            assert(is_digit(name[t]));
        } else if t == 14 {
        } else if t < word_end {
            assert(name[t] == prefix[t - 15]);
        } else if t == word_end {
        } else if t < head - 1 {
            assert(is_digit(name[t]));
        }
    }
}

/// A word without digits, `_` and `.` that occurs in a shaped name before
/// its extension occurs in the word of the category followed by `-`.
pub proof fn lemma_word_in_head(
    stamp: Seq<char>,
    category: RecordType,
    counter: Seq<char>,
    extension: Seq<char>,
    word: Seq<char>,
    at: int,
)
    requires
        stamp.len() == 14,
        all_digits(stamp),
        counter_like(counter),
        word.len() > 0,
        forall|k: int|
            0 <= k < word.len() ==> !is_digit(#[trigger] word[k]) && word[k] != '_' && word[k]
                != '.',
        has_at(shaped_name(stamp, category.prefix(), counter, extension), word, at),
        at < 15 + category.prefix().len() + counter.len() + 1,
    ensures
        has_at(category.prefix().push('-'), word, at - 15),
{
    let prefix = category.prefix();
    let name = shaped_name(stamp, prefix, counter, extension);
    let word_end = 15 + prefix.len();
    let head = word_end + counter.len() + 1;
    lemma_head(stamp, category, counter, extension);
    assert(name[at + 0] == word[0]);
    if at < 14 {
        assert(is_digit(name[at]));
    }
    assert(at >= 15);
    let stop = if counter.len() > 0 {
        word_end + 1
    } else {
        word_end
    };
    if at >= stop {
        if at < head - 1 {
            assert(is_digit(name[at]));
        }
        assert(false);
    }
    if at + word.len() > stop {
        let k = stop - at;
        assert(name[at + k] == word[k]);
        if counter.len() > 0 {
            assert(is_digit(name[stop as int]));
        }
        assert(false);
    }
    let wide = prefix.push('-');
    assert forall|k: int| 0 <= k < word.len() implies wide[at - 15 + k] == #[trigger] word[k] by {
        assert(name[at + k] == word[k]);
        if at + k < word_end {
            assert(name[at + k] == prefix[at + k - 15]);
        }
    }
}

/// The words by which categories are told apart are made of small letters
/// and `-`; and no word of an earlier category occurs in the word of a
/// later one followed by `-`.
pub proof fn lemma_words_apart()
    ensures
        forall|k: int|
            0 <= k < "screen-capture"@.len() ==> !is_digit(#[trigger] "screen-capture"@[k])
                && "screen-capture"@[k] != '_' && "screen-capture"@[k] != '.',
        forall|k: int|
            0 <= k < "screenshot"@.len() ==> !is_digit(#[trigger] "screenshot"@[k])
                && "screenshot"@[k] != '_' && "screenshot"@[k] != '.',
        forall|k: int|
            0 <= k < "screen-record"@.len() ==> !is_digit(#[trigger] "screen-record"@[k])
                && "screen-record"@[k] != '_' && "screen-record"@[k] != '.',
        forall|k: int|
            0 <= k < "recording"@.len() ==> !is_digit(#[trigger] "recording"@[k]) && "recording"@[k]
                != '_' && "recording"@[k] != '.',
        "screen-capture"@.len() == 14,
        "screenshot"@.len() == 10,
        "screen-record"@.len() == 13,
        "recording"@.len() == 9,
        forall|j: int| !has_at("screen-record"@.push('-'), "screen-capture"@, j),
        forall|j: int| !has_at("screen-record"@.push('-'), "screenshot"@, j),
        forall|j: int| !has_at("voice-record"@.push('-'), "screen-capture"@, j),
        forall|j: int| !has_at("voice-record"@.push('-'), "screenshot"@, j),
        forall|j: int| !has_at("voice-record"@.push('-'), "screen-record"@, j),
        forall|j: int| !has_at("voice-record"@.push('-'), "recording"@, j),
{
    reveal_strlit("screen-capture");
    reveal_strlit("screenshot");
    reveal_strlit("screen-record");
    reveal_strlit("recording");
    reveal_strlit("voice-record");
    let sr = "screen-record"@.push('-');
    let vr = "voice-record"@.push('-');
    assert forall|j: int| !has_at(sr, "screen-capture"@, j) by {
        if has_at(sr, "screen-capture"@, j) {
            assert(sr[j + 7] == "screen-capture"@[7]);
        }
    }
    assert forall|j: int| !has_at(sr, "screenshot"@, j) by {
        if has_at(sr, "screenshot"@, j) {
            assert(sr[j + 0] == "screenshot"@[0]);
            assert(sr[j + 6] == "screenshot"@[6]);
        }
    }
    assert forall|j: int| !has_at(vr, "screen-capture"@, j) by {}
    assert forall|j: int| !has_at(vr, "screenshot"@, j) by {
        if has_at(vr, "screenshot"@, j) {
            assert(vr[j + 0] == "screenshot"@[0]);
        }
    }
    assert forall|j: int| !has_at(vr, "screen-record"@, j) by {
        if has_at(vr, "screen-record"@, j) {
            assert(vr[j + 0] == "screen-record"@[0]);
        }
    }
    assert forall|j: int| !has_at(vr, "recording"@, j) by {
        if has_at(vr, "recording"@, j) {
            assert(vr[j + 0] == "recording"@[0]);
        }
    }
}

/// A word that occurs neither in the text that ends with the extension in
/// small letters nor in the word of the category followed by `-` does not
/// occur in the shaped name.
pub proof fn lemma_word_absent(
    origin: Seq<char>,
    offset: int,
    stamp: Seq<char>,
    category: RecordType,
    counter: Seq<char>,
    low: Seq<char>,
    word: Seq<char>,
)
    requires
        stamp.len() == 14,
        all_digits(stamp),
        counter_like(counter),
        word.len() > 0,
        forall|k: int|
            0 <= k < word.len() ==> !is_digit(#[trigger] word[k]) && word[k] != '_' && word[k]
                != '.',
        forall|j: int| !has_at(category.prefix().push('-'), word, j),
        !contains(origin, word),
        0 <= offset,
        offset + low.len() <= origin.len(),
        forall|t: int| 0 <= t < low.len() ==> origin[offset + t] == #[trigger] low[t],
    ensures
        !contains(shaped_name(stamp, category.prefix(), counter, low), word),
{
    let name = shaped_name(stamp, category.prefix(), counter, low);
    if contains(name, word) {
        let at = choose|at: int| has_at(name, word, at);
        let head = 15 + category.prefix().len() + counter.len() + 1;
        if at < head {
            lemma_word_in_head(stamp, category, counter, low, word, at);
        } else {
            lemma_head(stamp, category, counter, low);
            let there = offset + at - head;
            assert forall|k: int| 0 <= k < word.len() implies origin[there + k] == #[trigger] word[k] by {
                assert(name[at + k] == word[k]);
                assert(name[head + (at - head + k)] == low[at - head + k]);
            }
            assert(has_at(origin, word, there));
        }
    }
}

/// Small letters of small letters are the same small letters; and a sign
/// that is no letter is in the small letters only where it was before.
pub proof fn lemma_lower_twice(s: Seq<char>)
    ensures
        ascii_lower(ascii_lower(s)) == ascii_lower(s),
        lacks(s, '.') ==> lacks(ascii_lower(s), '.'),
        lacks(s, '/') ==> lacks(ascii_lower(s), '/'),
        ascii_lower(s).len() == s.len(),
{
    assert(ascii_lower(ascii_lower(s)) =~= ascii_lower(s));
    if lacks(s, '.') {
        assert forall|i: int| 0 <= i < s.len() implies #[trigger] ascii_lower(s)[i] != '.' by {
            assert(s[i] != '.');
        }
    }
    if lacks(s, '/') {
        assert forall|i: int| 0 <= i < s.len() implies #[trigger] ascii_lower(s)[i] != '/' by {
            assert(s[i] != '/');
        }
    }
}

/// A shaped name with the word of the category of `origin` and with the
/// extension of `origin`, in whatever letters, is of that category.
pub proof fn lemma_shaped_category(
    origin: Seq<char>,
    stamp: Seq<char>,
    counter: Seq<char>,
    extension: Seq<char>,
)
    requires
        stamp.len() == 14,
        all_digits(stamp),
        counter_like(counter),
        extension.len() > 0,
        lacks(extension, '.'),
        extension_of(origin).len() > 0,
        ascii_lower(extension) == ascii_lower(extension_of(origin)),
    ensures
        category_of_name(
            shaped_name(stamp, category_of_name(origin).prefix(), counter, extension),
        ) == category_of_name(origin),
{
    let category = category_of_name(origin);
    let prefix = category.prefix();
    let name = shaped_name(stamp, prefix, counter, extension);
    let front = stamp + seq!['_'] + prefix + counter;
    lemma_last_index_split(front, '.', extension);
    assert(name.skip(front.len() as int + 1) =~= extension);
    assert(extension_of(name) == extension);
    if category_of_extension(ascii_lower(extension_of(origin))) is None {
        let low = ascii_lower(extension);
        let w = ascii_lower(name);
        let w0 = ascii_lower(origin);
        let head = 15 + prefix.len() + counter.len() + 1;
        lemma_head(stamp, category, counter, extension);
        lemma_head(stamp, category, counter, low);
        let lowered = shaped_name(stamp, prefix, counter, low);
        assert(w =~= lowered) by {
            assert(w.len() == lowered.len());
            assert forall|t: int| 0 <= t < w.len() implies w[t] == lowered[t] by {
                if t < head {
                    assert(lower_char(name[t]) == name[t]);
                } else {
                    assert(name[head + (t - head)] == extension[t - head]);
                    assert(lowered[head + (t - head)] == low[t - head]);
                }
            }
        }
        let dot = last_index_of(origin, '.');
        lemma_last_index(origin, '.');
        let offset = dot + 1;
        assert forall|t: int| 0 <= t < low.len() implies w0[offset + t] == #[trigger] low[t] by {
            assert(low[t] == ascii_lower(extension_of(origin))[t]);
            assert(extension_of(origin)[t] == origin[offset + t]);
        }
        assert(has_at(w, prefix, 15)) by {
            assert forall|k: int| 0 <= k < prefix.len() implies w[15 + k] == #[trigger] prefix[k] by {
                assert(lowered[15 + k] == prefix[15 + k - 15]);
            }
        }
        assert(contains(w, prefix));
        lemma_words_apart();
        match category {
            RecordType::ScreenCapture => {},
            RecordType::ScreenRecord => {
                lemma_word_absent(w0, offset, stamp, category, counter, low, "screen-capture"@);
                lemma_word_absent(w0, offset, stamp, category, counter, low, "screenshot"@);
            },
            RecordType::VoiceRecord => {
                lemma_word_absent(w0, offset, stamp, category, counter, low, "screen-capture"@);
                lemma_word_absent(w0, offset, stamp, category, counter, low, "screenshot"@);
                lemma_word_absent(w0, offset, stamp, category, counter, low, "screen-record"@);
                lemma_word_absent(w0, offset, stamp, category, counter, low, "recording"@);
            },
        }
        assert(category_of_words(w) == category);
    }
}

/// The file can be given a canonical name: it has one, or it has an
/// extension and a year of four digits.
pub open spec fn nameable(file: FileInfoView) -> bool {
    needs_rename(file) ==> file.extension.len() > 0 && 0 <= file.modified.year <= 9999
}

/// The extension that a file's name shows has neither `.` nor `/`.
pub proof fn lemma_written_extension(file: FileInfoView)
    requires
        file.consistent(),
    ensures
        lacks(extension_of(file.name), '.'),
        lacks(extension_of(file.name), '/'),
        lacks(file.extension, '.'),
        lacks(file.extension, '/'),
        file.extension.len() == extension_of(file.name).len(),
        ascii_lower(file.extension) == file.extension,
        lacks(file.name, '/'),
{
    lemma_file_name_lacks_slash(file.path);
    let origin = file.name;
    let written = extension_of(origin);
    lemma_last_index(origin, '.');
    assert forall|t: int| 0 <= t < written.len() implies #[trigger] written[t] != '/' && written[t]
        != '.' by {
        let dot = last_index_of(origin, '.');
        assert(written[t] == origin[dot + 1 + t]);
    }
    lemma_lower_twice(written);
}

/// The name that a file is to have is a shaped name: the stamp, the word
/// of the file's category, the counter that the name has or none, and the
/// extension.
pub proof fn lemma_wanted_shape(file: FileInfoView) -> (parts: (Seq<char>, Seq<char>, Seq<char>))
    requires
        file.consistent(),
        file.modified.valid(),
        nameable(file),
    ensures
        wanted_name(file) == shaped_name(
            parts.0,
            category_of(file.path).prefix(),
            parts.1,
            parts.2,
        ),
        parts.0.len() == 14,
        all_digits(parts.0),
        counter_like(parts.1),
        valid_counter(parts.1),
        parts.2.len() > 0,
        lacks(parts.2, '.'),
        lacks(parts.2, '/'),
        extension_of(file.name).len() > 0,
        ascii_lower(parts.2) == ascii_lower(extension_of(file.name)),
{
    let prefix = category_of(file.path).prefix();
    lemma_written_extension(file);
    if needs_rename(file) {
        lemma_compact_text_digits(file.modified);
        let none = Seq::<char>::empty();
        assert(wanted_name(file) =~= shaped_name(
            compact_text(file.modified),
            prefix,
            none,
            file.extension,
        ));
        (compact_text(file.modified), none, file.extension)
    } else {
        lemma_canonical_parts(file.name, prefix);
        let dot = last_index_of(file.name, '.');
        (
            file.name.take(14),
            file.name.subrange(15 + prefix.len() as int, dot),
            file.name.skip(dot + 1),
        )
    }
}

/// A shaped name with the word of a category and a counter of at least 2 or
/// none is a canonical name of the category and has no `/` where its
/// extension has none.
pub proof fn lemma_shaped_is_canonical(
    stamp: Seq<char>,
    category: RecordType,
    counter: Seq<char>,
    extension: Seq<char>,
)
    requires
        stamp.len() == 14,
        all_digits(stamp),
        valid_counter(counter),
        extension.len() > 0,
        lacks(extension, '.'),
        lacks(extension, '/'),
    ensures
        is_canonical_name(shaped_name(stamp, category.prefix(), counter, extension), category.prefix()),
        lacks(shaped_name(stamp, category.prefix(), counter, extension), '/'),
{
    let prefix = category.prefix();
    let name = shaped_name(stamp, prefix, counter, extension);
    lemma_canonical_from_parts(stamp, prefix, counter, extension);
    lemma_prefix_facts(category);
    lemma_head(stamp, category, counter, extension);
    assert forall|t: int| 0 <= t < name.len() implies #[trigger] name[t] != '/' by {
        let head = 15 + prefix.len() + counter.len() + 1;
        if t < 14 {
            assert(is_digit(name[t]));
        } else if t == 14 {
        } else if t < 15 + prefix.len() {
            assert(name[t] == prefix[t - 15]);
        } else if t == 15 + prefix.len() {
        } else if t < head - 1 {
            assert(is_digit(name[t]));
        } else if t == head - 1 {
        } else {
            assert(name[head + (t - head)] == extension[t - head]);
        }
    }
}

/// The numbered name of a shaped name is the shaped name with the number
/// as its counter.
pub proof fn lemma_numbered_shaped(
    stamp: Seq<char>,
    category: RecordType,
    counter: Seq<char>,
    extension: Seq<char>,
    index: nat,
)
    requires
        counter_like(counter),
        lacks(extension, '.'),
        2 <= index,
    ensures
        numbered_name(shaped_name(stamp, category.prefix(), counter, extension), index)
            == shaped_name(stamp, category.prefix(), seq!['-'] + decimal(index), extension),
        valid_counter(seq!['-'] + decimal(index)),
{
    let fresh = seq!['-'] + decimal(index);
    lemma_numbered_name(stamp + seq!['_'], category, counter, extension, index);
    lemma_decimal(index);
    assert(fresh.skip(1) =~= decimal(index));
    assert(stamp + seq!['_'] + category.prefix() + seq!['-'] + decimal(index) + seq!['.']
        + extension =~= shaped_name(stamp, category.prefix(), fresh, extension));
}

/// The name that a plan gives a file is a canonical name of the file's
/// category, has no `/`, and shows that category itself.
pub proof fn lemma_target_name(file: FileInfoView, name: Seq<char>)
    requires
        file.consistent(),
        file.modified.valid(),
        nameable(file),
        name == wanted_name(file) || exists|index: nat|
            2 <= index && name == #[trigger] numbered_name(wanted_name(file), index),
    ensures
        is_canonical_name(name, category_of(file.path).prefix()),
        lacks(name, '/'),
        category_of_name(name) == category_of(file.path),
{
    let category = category_of(file.path);
    let parts = lemma_wanted_shape(file);
    let plain = wanted_name(file);
    if name == plain {
        lemma_shaped_is_canonical(parts.0, category, parts.1, parts.2);
        lemma_shaped_category(file.name, parts.0, parts.1, parts.2);
    } else {
        let index = choose|index: nat| 2 <= index && name == #[trigger] numbered_name(plain, index);
        lemma_numbered_shaped(parts.0, category, parts.1, parts.2, index);
        let counter = seq!['-'] + decimal(index);
        lemma_shaped_is_canonical(parts.0, category, counter, parts.2);
        lemma_shaped_category(file.name, parts.0, counter, parts.2);
    }
}

/// A file that a plan has moved lies where a plan wants it: in the folder
/// that it is to lie in, under the name that it is to have.
pub proof fn lemma_target_settles(ctx: PlanContext, file: FileInfoView, target: Seq<char>)
    requires
        file.consistent(),
        file.modified.valid(),
        nameable(file),
        routed(ctx, file, target),
    ensures
        joined(
            wanted_folder(ctx, moved_file(file, target)),
            wanted_name(moved_file(file, target)),
        ) == target,
        moved_file(file, target).consistent(),
{
    let folder = wanted_folder(ctx, file);
    let plain = wanted_name(file);
    let name = if target == joined(folder, plain) {
        plain
    } else {
        let index = choose|index: nat|
            2 <= index && target == joined(folder, #[trigger] numbered_name(plain, index));
        numbered_name(plain, index)
    };
    assert(target == joined(folder, name));
    lemma_target_name(file, name);
    lemma_file_name_joined(folder, name);
}

/// The word that a canonical name of a category carries is the word of the
/// category.
#[verifier::rlimit(40)]
pub proof fn lemma_prefix_of_canonical(name: Seq<char>, category: RecordType)
    requires
        is_canonical_name(name, category.prefix()),
    ensures
        naming_prefix_of(name) == category.prefix(),
{
    let prefix = category.prefix();
    lemma_canonical_parts(name, prefix);
    lemma_prefix_facts(category);
    let dot = last_index_of(name, '.');
    let stamp = name.take(14);
    let counter = name.subrange(15 + prefix.len() as int, dot);
    let extension = name.skip(dot + 1);
    lemma_digits_lack_signs(stamp);
    let tail = prefix + counter + seq!['.'] + extension;
    assert(name =~= stamp + seq!['_'] + tail);
    lemma_first_index_split(stamp, '_', tail);
    let rest = name.skip(15);
    assert(rest =~= tail);
    let word = prefix + counter;
    if counter.len() > 0 {
        lemma_digits_lack_signs(counter.skip(1));
    }
    assert(lacks(word, '_') && lacks(word, '.')) by {
        assert forall|t: int| 0 <= t < word.len() implies #[trigger] word[t] != '_' && word[t]
            != '.' by {
            if t < prefix.len() {
                assert(word[t] == prefix[t]);
            } else if t > prefix.len() {
                assert(word[t] == counter.skip(1)[t - prefix.len() - 1]);
            }
        }
    }
    lemma_first_index(rest, '_');
    let second = first_index_of(rest, '_');
    let segment = second_segment(name)->0;
    assert(second < 0 || second > word.len()) by {
        if 0 <= second <= word.len() {
            if second < word.len() {
                assert(rest[second] == word[second]);
            }
        }
    }
    let shown = if second < 0 {
        extension
    } else {
        extension.take(second - word.len() - 1)
    };
    assert(segment =~= word + seq!['.'] + shown);
    assert(lacks(shown, '.')) by {
        assert forall|t: int| 0 <= t < shown.len() implies #[trigger] shown[t] != '.' by {
            assert(shown[t] == extension[t]);
        }
    }
    lemma_last_index_split(word, '.', shown);
    assert(segment.take(word.len() as int) =~= word);
    assert(without_extension(segment) == word);
    assert(Seq::<char>::empty() + prefix + counter =~= word);
    lemma_without_counter(Seq::<char>::empty(), category, counter);
    assert(Seq::<char>::empty() + prefix =~= prefix);
}

/// The words of the categories differ.
pub proof fn lemma_prefixes_differ(one: RecordType, other: RecordType)
    requires
        one != other,
    ensures
        one.prefix() != other.prefix(),
        one.prefix().len() > 0,
{
    lemma_prefix_facts(one);
    lemma_prefix_facts(other);
    reveal_strlit("screen-record");
    reveal_strlit("voice-record");
    if one.prefix() == other.prefix() {
        assert(one.prefix()[0] == other.prefix()[0]);
    }
}

/// A name is no canonical name of a category exactly where it is no
/// canonical name of any category, or carries a word that is not empty and
/// is not the word of the category.
pub proof fn lemma_rename_rule(name: Seq<char>, category: RecordType)
    ensures
        !is_canonical_name(name, category.prefix()) <==> (!is_record_name(name) || (
        naming_prefix_of(name).len() > 0 && naming_prefix_of(name) != category.prefix())),
{
    if is_canonical_name(name, category.prefix()) {
        lemma_prefix_of_canonical(name, category);
    } else if is_record_name(name) {
        let other = if is_canonical_name(name, RecordType::ScreenCapture.prefix()) {
            RecordType::ScreenCapture
        } else if is_canonical_name(name, RecordType::ScreenRecord.prefix()) {
            RecordType::ScreenRecord
        } else {
            RecordType::VoiceRecord
        };
        lemma_prefix_of_canonical(name, other);
        lemma_prefixes_differ(other, category);
    }
}

} // verus!
