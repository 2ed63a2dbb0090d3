//! What a scan of a directory tree reports, and questions asked of such a
//! report. The scan itself happens outside this library; here a report is a
//! plain list of entries.

use vstd::prelude::*;
use crate::paths::{child_of, extension, extension_of, file_name, file_name_of, is_under, under};
use crate::text::{
    ascii_lower, from_chars, lemma_lex_asymmetric, lemma_lex_transitive, lex_lt, precedes,
    to_chars, to_lower,
};
use crate::timestamp::{CivilTime, Timestamp};

verus! {

/// One entry of a scan: a file or a directory.
#[derive(Debug)]
pub struct FileInfo {
    pub path: String,
    pub name: String,
    /// The extension of `name`, in small letters.
    pub extension: String,
    pub size: u64,
    pub modified: Timestamp,
    pub is_dir: bool,
}

/// An entry as plain values.
pub struct FileInfoView {
    pub path: Seq<char>,
    pub name: Seq<char>,
    pub extension: Seq<char>,
    pub size: u64,
    pub modified: CivilTime,
    pub is_dir: bool,
}

impl View for FileInfo {
    type V = FileInfoView;

    open spec fn view(&self) -> FileInfoView {
        FileInfoView {
            path: self.path@,
            name: self.name@,
            extension: self.extension@,
            size: self.size,
            modified: self.modified@,
            is_dir: self.is_dir,
        }
    }
}

impl FileInfoView {
    /// Name and extension are those of the path.
    pub open spec fn consistent(self) -> bool {
        &&& self.name == file_name_of(self.path)
        &&& self.extension == ascii_lower(extension_of(self.name))
    }
}

/// The entries of a report as plain values.
pub open spec fn views(entries: Seq<FileInfo>) -> Seq<FileInfoView> {
    Seq::new(entries.len(), |i: int| entries[i]@)
}

/// Some entry of the report has the path `path`.
pub open spec fn listed(entries: Seq<FileInfoView>, path: Seq<char>) -> bool {
    exists|i: int| 0 <= i < entries.len() && (#[trigger] entries[i]).path == path
}

/// The entries at or below `dir`, in the order of the report.
pub open spec fn entries_at_or_under(entries: Seq<FileInfoView>, dir: Seq<char>) -> Seq<
    FileInfoView,
> {
    entries.filter(|e: FileInfoView| e.path == dir || under(e.path, dir))
}

/// The files below `dir`, at any depth, in the order of the report.
pub open spec fn files_under(entries: Seq<FileInfoView>, dir: Seq<char>) -> Seq<FileInfoView> {
    entries.filter(|e: FileInfoView| !e.is_dir && under(e.path, dir))
}

/// The files directly in `dir`, in the order of the report.
pub open spec fn files_in(entries: Seq<FileInfoView>, dir: Seq<char>) -> Seq<FileInfoView> {
    entries.filter(|e: FileInfoView| !e.is_dir && child_of(e.path, dir))
}

impl Clone for FileInfo {
    fn clone(&self) -> (r: Self)
        ensures
            r@ == self@,
    {
        FileInfo {
            path: self.path.clone(),
            name: self.name.clone(),
            extension: self.extension.clone(),
            size: self.size,
            modified: self.modified,
            is_dir: self.is_dir,
        }
    }
}

impl FileInfo {
    /// The entry for `path`, with the name and the extension that the path
    /// shows.
    pub fn new(path: &str, size: u64, modified: Timestamp, is_dir: bool) -> (r: FileInfo)
        ensures
            r@.path == path@,
            r@.size == size,
            r@.modified == modified@,
            r@.is_dir == is_dir,
            r@.consistent(),
    {
        let name = file_name(path);
        let ext = extension(name.as_str());
        let ext_chars = to_chars(ext.as_str());
        let lowered = to_lower(&ext_chars);
        FileInfo {
            path: from_chars(&to_chars(path)),
            name,
            extension: from_chars(&lowered),
            size,
            modified,
            is_dir,
        }
    }
}

/// Reads scan reports.
pub struct DriveScanner;

impl DriveScanner {
    /// Whether the report has an entry for `path`.
    pub fn has_path(entries: &Vec<FileInfo>, path: &str) -> (b: bool)
        ensures
            b == listed(views(entries@), path@),
    {
        let wanted = from_chars(&to_chars(path));
        let mut i: usize = 0;
        while i < entries.len()
            invariant
                i <= entries.len(),
                wanted@ == path@,
                forall|j: int| 0 <= j < i ==> (#[trigger] views(entries@)[j]).path != path@,
            decreases entries.len() - i,
        {
            if entries[i].path == wanted {
                assert(views(entries@)[i as int].path == path@);
                return true;
            }
            i += 1;
        }
        false
    }

    /// What a scan of `dir` lists: the entries at or below it.
    pub fn scan(dir: &str, entries: &Vec<FileInfo>) -> (found: Vec<FileInfo>)
        ensures
            views(found@) == entries_at_or_under(views(entries@), dir@),
    {
        let wanted = from_chars(&to_chars(dir));
        let ghost all = views(entries@);
        let ghost keep = |e: FileInfoView| e.path == dir@ || under(e.path, dir@);
        let mut found: Vec<FileInfo> = Vec::new();
        let mut i: usize = 0;
        proof {
            assert(all.take(0) =~= Seq::<FileInfoView>::empty());
            assert(views(found@) =~= all.take(0).filter(keep));
        }
        while i < entries.len()
            invariant
                i <= entries.len(),
                wanted@ == dir@,
                all == views(entries@),
                keep == |e: FileInfoView| e.path == dir@ || under(e.path, dir@),
                views(found@) == all.take(i as int).filter(keep),
            decreases entries.len() - i,
        {
            let ghost before = views(found@);
            proof {
                lemma_filter_step(all, keep, i as int);
            }
            if entries[i].path == wanted || is_under(entries[i].path.as_str(), dir) {
                found.push(entries[i].clone());
                proof {
                    assert(views(found@) =~= before.push(all[i as int]));
                }
            }
            i += 1;
        }
        proof {
            assert(all.take(entries.len() as int) =~= all);
        }
        found
    }
}

/// Filtering one entry more either appends that entry or changes nothing.
pub proof fn lemma_filter_step<A>(s: Seq<A>, keep: spec_fn(A) -> bool, i: int)
    requires
        0 <= i < s.len(),
    ensures
        s.take(i + 1).filter(keep) == if keep(s[i]) {
            s.take(i).filter(keep).push(s[i])
        } else {
            s.take(i).filter(keep)
        },
{
    reveal(Seq::filter);
    assert(s.take(i + 1).drop_last() =~= s.take(i));
    assert(s.take(i + 1).last() == s[i]);
}

/// No entry has a path that comes before the path of an entry in front of
/// it in dictionary order.
pub open spec fn in_path_order(entries: Seq<FileInfoView>) -> bool {
    forall|i: int, j: int|
        0 <= i < j < entries.len() ==> !lex_lt((#[trigger] entries[j]).path, (
        #[trigger] entries[i]).path)
}

/// `entries` with `entry` put in before the first one whose path comes
/// after its path.
pub open spec fn path_insert(entries: Seq<FileInfoView>, entry: FileInfoView) -> Seq<FileInfoView>
    decreases entries.len(),
{
    if entries.len() == 0 {
        seq![entry]
    } else if lex_lt(entry.path, entries[0].path) {
        seq![entry] + entries
    } else {
        seq![entries[0]] + path_insert(entries.skip(1), entry)
    }
}

/// The entries in the dictionary order of their paths; entries with one
/// path keep the order in which they came.
pub open spec fn by_path(entries: Seq<FileInfoView>) -> Seq<FileInfoView>
    decreases entries.len(),
{
    if entries.len() == 0 {
        entries
    } else {
        path_insert(by_path(entries.drop_last()), entries.last())
    }
}

/// Where the walk over `entries` stops before the first one whose path
/// comes after that of `entry`, or at the end, `entry` is put in there.
pub proof fn lemma_path_insert_at(entries: Seq<FileInfoView>, entry: FileInfoView, at: int)
    requires
        0 <= at <= entries.len(),
        at < entries.len() ==> lex_lt(entry.path, entries[at].path),
        forall|j: int| 0 <= j < at ==> !lex_lt(entry.path, (#[trigger] entries[j]).path),
    ensures
        path_insert(entries, entry) == entries.insert(at, entry),
    decreases at,
{
    if at == 0 {
        if entries.len() == 0 {
            assert(entries.insert(0, entry) =~= seq![entry]);
        } else {
            assert(entries.insert(0, entry) =~= seq![entry] + entries);
        }
    } else {
        let rest = entries.skip(1);
        assert forall|j: int| 0 <= j < at - 1 implies !lex_lt(
            entry.path,
            (#[trigger] rest[j]).path,
        ) by {
            assert(rest[j] == entries[j + 1]);
        }
        if at < entries.len() {
            assert(rest[at - 1] == entries[at]);
        }
        lemma_path_insert_at(rest, entry, at - 1);
        assert(seq![entries[0]] + rest.insert(at - 1, entry) =~= entries.insert(at, entry));
    }
}

/// Putting an entry in at its place keeps the order and adds that entry
/// and nothing else.
pub proof fn lemma_path_insert(entries: Seq<FileInfoView>, entry: FileInfoView)
    requires
        in_path_order(entries),
    ensures
        in_path_order(path_insert(entries, entry)),
        path_insert(entries, entry).to_multiset() == entries.to_multiset().insert(entry),
    decreases entries.len(),
{
    broadcast use vstd::seq_lib::group_to_multiset_ensures;

    if entries.len() == 0 {
        assert(seq![entry] =~= Seq::<FileInfoView>::empty().push(entry));
    } else if lex_lt(entry.path, entries[0].path) {
        let result = seq![entry] + entries;
        assert(result =~= entries.insert(0, entry));
        assert forall|i: int, j: int| 0 <= i < j < result.len() implies !lex_lt(
            (#[trigger] result[j]).path,
            (#[trigger] result[i]).path,
        ) by {
            if i == 0 {
                lemma_lex_asymmetric(entry.path, entries[0].path);
                if j > 1 {
                    assert(!lex_lt(entries[j - 1].path, entries[0].path));
                    if lex_lt(entries[j - 1].path, entry.path) {
                        lemma_lex_transitive(entries[j - 1].path, entry.path, entries[0].path);
                    }
                }
            } else {
                assert(result[i] == entries[i - 1]);
                assert(result[j] == entries[j - 1]);
            }
        }
    } else {
        let rest = entries.skip(1);
        assert forall|i: int, j: int| 0 <= i < j < rest.len() implies !lex_lt(
            (#[trigger] rest[j]).path,
            (#[trigger] rest[i]).path,
        ) by {
            assert(rest[i] == entries[i + 1]);
            assert(rest[j] == entries[j + 1]);
        }
        lemma_path_insert(rest, entry);
        let tail = path_insert(rest, entry);
        let result = seq![entries[0]] + tail;
        assert(result =~= tail.insert(0, entries[0]));
        assert(entries =~= rest.insert(0, entries[0]));
        assert forall|i: int, j: int| 0 <= i < j < result.len() implies !lex_lt(
            (#[trigger] result[j]).path,
            (#[trigger] result[i]).path,
        ) by {
            if i == 0 {
                let x = tail[j - 1];
                assert(tail.to_multiset().contains(x));
                if x != entry {
                    assert(rest.to_multiset().contains(x));
                    let k = choose|k: int| 0 <= k < rest.len() && rest[k] == x;
                    assert(entries[k + 1] == x);
                    assert(!lex_lt(entries[k + 1].path, entries[0].path));
                }
            } else {
                assert(result[i] == tail[i - 1]);
                assert(result[j] == tail[j - 1]);
            }
        }
        assert(result.to_multiset() =~= entries.to_multiset().insert(entry));
    }
}

/// The entries in the order of their paths are in order and are the same
/// entries.
pub proof fn lemma_by_path(entries: Seq<FileInfoView>)
    ensures
        in_path_order(by_path(entries)),
        by_path(entries).to_multiset() == entries.to_multiset(),
    decreases entries.len(),
{
    broadcast use vstd::seq_lib::group_to_multiset_ensures;

    if entries.len() > 0 {
        lemma_by_path(entries.drop_last());
        lemma_path_insert(by_path(entries.drop_last()), entries.last());
        assert(entries =~= entries.drop_last().push(entries.last()));
    }
}

impl DriveScanner {
    /// The entries in the dictionary order of their paths, so that what is
    /// made from a scan does not depend on the order in which the file
    /// system gave its entries. A directory comes before what is in it.
    pub fn sort_by_path(entries: &Vec<FileInfo>) -> (sorted: Vec<FileInfo>)
        ensures
            views(sorted@) == by_path(views(entries@)),
            in_path_order(views(sorted@)),
            views(sorted@).to_multiset() == views(entries@).to_multiset(),
    {
        let ghost all = views(entries@);
        let mut sorted: Vec<FileInfo> = Vec::new();
        let mut i: usize = 0;
        proof {
            assert(all.take(0) =~= Seq::<FileInfoView>::empty());
            assert(views(sorted@) =~= by_path(all.take(0)));
        }
        while i < entries.len()
            invariant
                i <= entries.len(),
                all == views(entries@),
                views(sorted@) == by_path(all.take(i as int)),
            decreases entries.len() - i,
        {
            let entry = entries[i].clone();
            let path = to_chars(entry.path.as_str());
            let ghost before = views(sorted@);
            let mut at: usize = 0;
            let mut placed = false;
            while at < sorted.len() && !placed
                invariant
                    at <= sorted.len(),
                    path@ == entry@.path,
                    before == views(sorted@),
                    forall|j: int| 0 <= j < at ==> !lex_lt(entry@.path, (#[trigger] before[j]).path),
                    placed ==> at < sorted.len() && lex_lt(entry@.path, before[at as int].path),
                decreases sorted.len() - at, if placed { 0int } else { 1int },
            {
                assert(before[at as int] == sorted@[at as int]@);
                let other = to_chars(sorted[at].path.as_str());
                if precedes(&path, &other) {
                    placed = true;
                } else {
                    at += 1;
                }
            }
            proof {
                lemma_path_insert_at(before, entry@, at as int);
                assert(all.take(i + 1).drop_last() =~= all.take(i as int));
                assert(all.take(i + 1).last() == entry@);
            }
            sorted.insert(at, entry);
            proof {
                assert(views(sorted@) =~= before.insert(at as int, entry@));
            }
            i += 1;
        }
        proof {
            assert(all.take(entries.len() as int) =~= all);
            lemma_by_path(all);
        }
        sorted
    }
}

} // verus!
