//! Canonical file names: fourteen digits of a timestamp, `_`, the word of
//! the category, optionally `-` and a counter of at least 2, then `.` and an
//! extension without a further `.`.

use vstd::prelude::*;
use crate::record_manager::{RecordManager, RecordType};
use crate::text::{
    all_digits, digits_in, digits_value, find_first, find_last, first_index_of, from_chars,
    has_at, lacks, last_index_of, lemma_first_index, lemma_last_index, lemma_last_index_split,
    matches_at, slice, to_chars,
};

verus! {

/// Nothing, or `-` and a decimal counter that denotes at least 2.
pub open spec fn valid_counter(s: Seq<char>) -> bool {
    s.len() == 0 || (s.len() >= 2 && s[0] == '-' && all_digits(s.skip(1)) && digits_value(
        s.skip(1),
    ) >= 2)
}

/// `name` is a canonical file name that carries the word `prefix`.
pub open spec fn is_canonical_name(name: Seq<char>, prefix: Seq<char>) -> bool {
    let dot = last_index_of(name, '.');
    let head = 15 + prefix.len();
    &&& head <= dot
    &&& dot + 1 < name.len()
    &&& all_digits(name.take(14))
    &&& name[14] == '_'
    &&& has_at(name, prefix, 15)
    &&& valid_counter(name.subrange(head as int, dot))
}

/// `name` is a canonical file name of one of the categories.
pub open spec fn is_record_name(name: Seq<char>) -> bool {
    ||| is_canonical_name(name, RecordType::ScreenCapture.prefix())
    ||| is_canonical_name(name, RecordType::ScreenRecord.prefix())
    ||| is_canonical_name(name, RecordType::VoiceRecord.prefix())
}

/// What stands between the first and the second `_` of `name`, or after the
/// first where there is no second; nothing where there is no `_` at all.
pub open spec fn second_segment(name: Seq<char>) -> Option<Seq<char>> {
    let first = first_index_of(name, '_');
    if first < 0 {
        None
    } else {
        let rest = name.skip(first + 1);
        let second = first_index_of(rest, '_');
        Some(
            if second < 0 {
                rest
            } else {
                rest.take(second)
            },
        )
    }
}

/// `text` up to its last `.`.
pub open spec fn without_extension(text: Seq<char>) -> Seq<char> {
    let dot = last_index_of(text, '.');
    if dot < 0 {
        text
    } else {
        text.take(dot)
    }
}

/// `stem` without a `-` and digits at its end.
pub open spec fn without_counter(stem: Seq<char>) -> Seq<char> {
    let dash = last_index_of(stem, '-');
    if dash >= 0 && dash + 1 < stem.len() && all_digits(stem.skip(dash + 1)) {
        stem.take(dash)
    } else {
        stem
    }
}

/// The word that `name` carries where a canonical name has the word of its
/// category; empty where `name` has no `_`.
pub open spec fn naming_prefix_of(name: Seq<char>) -> Seq<char> {
    match second_segment(name) {
        None => Seq::<char>::empty(),
        Some(segment) => without_counter(without_extension(segment)),
    }
}

/// Whether the digits of `v` from `from` up to `to` denote at least 2.
fn at_least_two(v: &Vec<char>, from: usize, to: usize) -> (b: bool)
    requires
        from <= to <= v.len(),
        all_digits(v@.subrange(from as int, to as int)),
    ensures
        b == (digits_value(v@.subrange(from as int, to as int)) >= 2),
{
    let ghost part = v@.subrange(from as int, to as int);
    let mut capped: u8 = 0;
    let mut i: usize = from;
    proof {
        assert(v@.subrange(from as int, from as int) =~= Seq::<char>::empty());
    }
    while i < to
        invariant
            from <= i <= to <= v.len(),
            part == v@.subrange(from as int, to as int),
            all_digits(part),
            capped <= 2,
            capped < 2 ==> digits_value(v@.subrange(from as int, i as int)) == capped,
            capped == 2 ==> digits_value(v@.subrange(from as int, i as int)) >= 2,
        decreases to - i,
    {
        proof {
            assert(part[i - from] == v@[i as int]);
            let longer = v@.subrange(from as int, i + 1);
            assert(longer.drop_last() =~= v@.subrange(from as int, i as int));
            assert(longer.last() == v@[i as int]);
        }
        let digit: u8 = (v[i] as u8) - 48;
        let next: u8 = capped * 10 + digit;
        capped = if next >= 2 {
            2
        } else {
            next
        };
        i += 1;
    }
    capped >= 2
}

/// Whether `stem` ends with `-` and digits; `dash` is where that `-` is.
fn counter_start(stem: &Vec<char>) -> (dash: Option<usize>)
    ensures
        match dash {
            Some(k) => k < stem.len() && without_counter(stem@) == stem@.take(k as int),
            None => without_counter(stem@) == stem@,
        },
{
    proof {
        lemma_last_index(stem@, '-');
    }
    match find_last(stem, '-') {
        None => None,
        Some(k) => {
            if k + 1 < stem.len() && digits_in(stem, k + 1, stem.len()) {
                proof {
                    assert(stem@.skip(k + 1) =~= stem@.subrange(k + 1, stem.len() as int));
                }
                Some(k)
            } else {
                proof {
                    if k + 1 < stem.len() {
                        assert(stem@.skip(k + 1) =~= stem@.subrange(k + 1, stem.len() as int));
                    }
                }
                None
            }
        },
    }
}

/// `stem` without a `-` and digits at its end.
pub fn strip_counter(stem: &Vec<char>) -> (r: Vec<char>)
    ensures
        r@ == without_counter(stem@),
{
    match counter_start(stem) {
        Some(k) => {
            let r = slice(stem, 0, k);
            proof {
                assert(r@ =~= stem@.take(k as int));
            }
            r
        },
        None => {
            let r = slice(stem, 0, stem.len());
            proof {
                assert(r@ =~= stem@);
            }
            r
        },
    }
}

fn canonical_chars(name: &Vec<char>, prefix: &Vec<char>) -> (b: bool)
    ensures
        b == is_canonical_name(name@, prefix@),
{
    proof {
        lemma_last_index(name@, '.');
    }
    let dot: usize = match find_last(name, '.') {
        None => {
            return false;
        },
        Some(d) => d,
    };
    if name.len() < 15 || prefix.len() > name.len() - 15 {
        return false;
    }
    let head: usize = 15 + prefix.len();
    if head > dot || dot + 1 >= name.len() {
        return false;
    }
    proof {
        assert(name@.take(14) =~= name@.subrange(0, 14));
    }
    if !digits_in(name, 0, 14) {
        return false;
    }
    if name[14] != '_' {
        return false;
    }
    if !matches_at(name, prefix, 15) {
        return false;
    }
    let ghost counter = name@.subrange(head as int, dot as int);
    if head == dot {
        return true;
    }
    proof {
        assert(counter[0] == name@[head as int]);
        assert(counter.skip(1) =~= name@.subrange(head + 1, dot as int));
    }
    if name[head] != '-' || dot - head < 2 {
        return false;
    }
    if !digits_in(name, head + 1, dot) {
        return false;
    }
    at_least_two(name, head + 1, dot)
}

/// The rule that file names of captures follow.
pub struct NamingRule;

impl NamingRule {
    /// Whether `filename` is a canonical name of the category.
    pub fn matches_canonical(filename: &str, record_type: &RecordType) -> (b: bool)
        ensures
            b == is_canonical_name(filename@, record_type.prefix()),
    {
        let name = to_chars(filename);
        let prefix = to_chars(record_type.naming_prefix());
        canonical_chars(&name, &prefix)
    }

    /// Whether `filename` is a canonical name of any category.
    pub fn check_record_naming(filename: &str) -> (b: bool)
        ensures
            b == is_record_name(filename@),
    {
        let name = to_chars(filename);
        let capture = to_chars(RecordType::ScreenCapture.naming_prefix());
        let record = to_chars(RecordType::ScreenRecord.naming_prefix());
        let voice = to_chars(RecordType::VoiceRecord.naming_prefix());
        canonical_chars(&name, &capture) || canonical_chars(&name, &record) || canonical_chars(
            &name,
            &voice,
        )
    }
}

impl RecordManager {
    /// The word that `filename` carries in the place of a category's word.
    pub fn extract_naming_prefix(filename: &str) -> (prefix: String)
        ensures
            prefix@ == naming_prefix_of(filename@),
    {
        let name = to_chars(filename);
        proof {
            lemma_first_index(name@, '_');
        }
        let first: usize = match find_first(&name, '_') {
            None => {
                return String::new();
            },
            Some(i) => i,
        };
        let rest = slice(&name, first + 1, name.len());
        proof {
            assert(rest@ =~= name@.skip(first + 1));
            lemma_first_index(rest@, '_');
        }
        let segment = match find_first(&rest, '_') {
            None => rest,
            Some(second) => {
                let part = slice(&rest, 0, second);
                proof {
                    assert(part@ =~= rest@.take(second as int));
                }
                part
            },
        };
        proof {
            lemma_last_index(segment@, '.');
        }
        let stem = match find_last(&segment, '.') {
            None => segment,
            Some(dot) => {
                let part = slice(&segment, 0, dot);
                proof {
                    assert(part@ =~= segment@.take(dot as int));
                }
                part
            },
        };
        let word = strip_counter(&stem);
        from_chars(&word)
    }
}

/// Fourteen digits, `_`, the word, a counter or none, `.` and an extension
/// without `.` make a canonical name.
pub proof fn lemma_canonical_from_parts(
    stamp: Seq<char>,
    prefix: Seq<char>,
    counter: Seq<char>,
    extension: Seq<char>,
)
    requires
        stamp.len() == 14,
        all_digits(stamp),
        valid_counter(counter),
        extension.len() > 0,
        lacks(extension, '.'),
    ensures
        is_canonical_name(stamp + seq!['_'] + prefix + counter + seq!['.'] + extension, prefix),
{
    let front = stamp + seq!['_'] + prefix + counter;
    let name = front + seq!['.'] + extension;
    lemma_last_index_split(front, '.', extension);
    let head = 15 + prefix.len();
    assert(name.take(14) =~= stamp);
    assert(name[14] == '_');
    assert forall|k: int| 0 <= k < prefix.len() implies name[15 + k] == #[trigger] prefix[k] by {}
    assert(name.subrange(head as int, front.len() as int) =~= counter);
}

} // verus!
