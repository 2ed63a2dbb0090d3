//! Tidying up can be carried out: where the scan lists every directory
//! before what is below it, every directory is removed after all
//! directories below it.

use vstd::prelude::*;
use crate::applier::{cleanup_operations, removals, FsOperationView};
use crate::fs_model::lemma_cleanup_shape;
use crate::paths::{
    at_or_under, dir_prefix, lemma_same_top_folder, lemma_under_transitive, under,
};
use crate::planner::is_stray_folder;
use crate::scanner::{entries_at_or_under, in_path_order, FileInfoView};
use crate::source_laws::distinct_paths;
use crate::text::lex_lt;

verus! {

/// No entry lies below an entry that is listed after it.
pub open spec fn parents_first(entries: Seq<FileInfoView>) -> bool {
    forall|i: int, j: int|
        0 <= i < j < entries.len() ==> !under((#[trigger] entries[i]).path, (
        #[trigger] entries[j]).path)
}

/// A text comes after each of its proper beginnings.
pub proof fn lemma_beginning_comes_first(short: Seq<char>, long: Seq<char>)
    requires
        short.len() < long.len(),
        forall|k: int| 0 <= k < short.len() ==> long[k] == #[trigger] short[k],
    ensures
        lex_lt(short, long),
    decreases short.len(),
{
    if short.len() > 0 {
        assert(long[0] == short[0]);
        assert forall|k: int| 0 <= k < short.skip(1).len() implies long.skip(1)[k]
            == #[trigger] short.skip(1)[k] by {
            assert(long[k + 1] == short[k + 1]);
        }
        lemma_beginning_comes_first(short.skip(1), long.skip(1));
    }
}

/// What lies below a folder has a path that comes after the folder's.
pub proof fn lemma_folder_comes_first(path: Seq<char>, dir: Seq<char>)
    requires
        under(path, dir),
    ensures
        lex_lt(dir, path),
{
    assert forall|k: int| 0 <= k < dir.len() implies path[k] == #[trigger] dir[k] by {
        assert(path[0 + k] == dir_prefix(dir)[k]);
    }
    lemma_beginning_comes_first(dir, path);
}

/// Entries in the dictionary order of their paths list every directory
/// before what is below it.
pub proof fn lemma_path_order_parents_first(entries: Seq<FileInfoView>)
    requires
        in_path_order(entries),
    ensures
        parents_first(entries),
{
    assert forall|i: int, j: int| 0 <= i < j < entries.len() implies !under(
        (#[trigger] entries[i]).path,
        (#[trigger] entries[j]).path,
    ) by {
        if under(entries[i].path, entries[j].path) {
            lemma_folder_comes_first(entries[i].path, entries[j].path);
        }
    }
}

/// The candidate that the removal at `k` removes.
pub open spec fn removed_index(
    entries: Seq<FileInfoView>,
    candidates: Seq<FileInfoView>,
    k: int,
) -> int
    decreases candidates.len(),
{
    if candidates.len() == 0 {
        0
    } else if k < removals(entries, candidates.skip(1)).len() {
        1 + removed_index(entries, candidates.skip(1), k)
    } else {
        0
    }
}

/// The removals go through the candidates from the last to the first.
pub proof fn lemma_removed_index(
    entries: Seq<FileInfoView>,
    candidates: Seq<FileInfoView>,
    a: int,
    b: int,
)
    requires
        0 <= a <= b < removals(entries, candidates).len(),
    ensures
        0 <= removed_index(entries, candidates, b) <= removed_index(entries, candidates, a)
            < candidates.len(),
        a < b ==> removed_index(entries, candidates, b) < removed_index(entries, candidates, a),
        removals(entries, candidates)[a] == (FsOperationView::RemoveDir {
            path: candidates[removed_index(entries, candidates, a)].path,
        }),
        removals(entries, candidates)[b] == (FsOperationView::RemoveDir {
            path: candidates[removed_index(entries, candidates, b)].path,
        }),
    decreases candidates.len(),
{
    let rest = candidates.skip(1);
    let inner = removals(entries, rest);
    if b < inner.len() {
        lemma_removed_index(entries, rest, a, b);
        assert(rest[removed_index(entries, rest, a)] == candidates[1 + removed_index(
            entries,
            rest,
            a,
        )]);
        assert(rest[removed_index(entries, rest, b)] == candidates[1 + removed_index(
            entries,
            rest,
            b,
        )]);
    } else if a < inner.len() {
        lemma_removed_index(entries, rest, a, a);
        assert(rest[removed_index(entries, rest, a)] == candidates[1 + removed_index(
            entries,
            rest,
            a,
        )]);
    }
}

/// The selected entries of a list that lists parents first list parents
/// first.
pub proof fn lemma_filter_parents_first(
    entries: Seq<FileInfoView>,
    keep: spec_fn(FileInfoView) -> bool,
)
    requires
        parents_first(entries),
        distinct_paths(entries),
    ensures
        parents_first(entries.filter(keep)),
    decreases entries.len(),
{
    reveal(Seq::filter);
    if entries.len() > 0 {
        let front = entries.drop_last();
        assert(parents_first(front) && distinct_paths(front)) by {
            assert forall|i: int, j: int| 0 <= i < j < front.len() implies !under(
                (#[trigger] front[i]).path,
                (#[trigger] front[j]).path,
            ) && front[i].path != front[j].path by {
                assert(front[i] == entries[i]);
                assert(front[j] == entries[j]);
            }
        }
        lemma_filter_parents_first(front, keep);
        let found = front.filter(keep);
        if keep(entries.last()) {
            let all = entries.filter(keep);
            assert(all == found.push(entries.last()));
            assert forall|i: int, j: int| 0 <= i < j < all.len() implies !under(
                (#[trigger] all[i]).path,
                (#[trigger] all[j]).path,
            ) by {
                if j == found.len() {
                    assert(found.contains(found[i]));
                    front.lemma_filter_contains_rev(keep, found[i]);
                    let k = choose|k: int| 0 <= k < front.len() && front[k] == found[i];
                    assert(entries[k] == front[k]);
                    assert(!under(entries[k].path, entries[entries.len() - 1].path));
                } else {
                    assert(all[i] == found[i]);
                    assert(all[j] == found[j]);
                }
            }
        }
    }
}

/// Among the removals for one folder, what is removed later does not lie
/// below what is removed earlier.
pub proof fn lemma_removals_deepest_first(
    entries: Seq<FileInfoView>,
    dir: Seq<char>,
    a: int,
    b: int,
)
    requires
        parents_first(entries),
        distinct_paths(entries),
        0 <= a < b < removals(entries, entries_at_or_under(entries, dir)).len(),
    ensures
        !under(
            removals(entries, entries_at_or_under(entries, dir))[b]->RemoveDir_path,
            removals(entries, entries_at_or_under(entries, dir))[a]->RemoveDir_path,
        ),
{
    let candidates = entries_at_or_under(entries, dir);
    lemma_filter_parents_first(entries, |e: FileInfoView| e.path == dir || under(e.path, dir));
    lemma_removed_index(entries, candidates, a, b);
    let first = removed_index(entries, candidates, a);
    let second = removed_index(entries, candidates, b);
    assert(!under(candidates[second].path, candidates[first].path));
}

/// Tidying up removes every directory after all directories below it: of
/// two of its removals, the later one does not remove what lies below what
/// the earlier one removes.
pub proof fn lemma_cleanup_deepest_first(
    root: Seq<char>,
    entries: Seq<FileInfoView>,
    count: nat,
    a: int,
    b: int,
)
    requires
        parents_first(entries),
        distinct_paths(entries),
        count <= entries.len(),
        0 <= a < b < cleanup_operations(root, entries, count).len(),
    ensures
        !under(
            cleanup_operations(root, entries, count)[b]->RemoveDir_path,
            cleanup_operations(root, entries, count)[a]->RemoveDir_path,
        ),
    decreases count,
{
    let all = cleanup_operations(root, entries, count);
    let before = cleanup_operations(root, entries, (count - 1) as nat);
    if b < before.len() {
        lemma_cleanup_deepest_first(root, entries, (count - 1) as nat, a, b);
        assert(all[a] == before[a]);
        assert(all[b] == before[b]);
    } else {
        let entry = entries[count - 1];
        let inner = removals(entries, entries_at_or_under(entries, entry.path));
        assert(is_stray_folder(root, entry));
        assert(all[b] == inner[b - before.len()]);
        if a >= before.len() {
            assert(all[a] == inner[a - before.len()]);
            lemma_removals_deepest_first(entries, entry.path, a - before.len(), b - before.len());
        } else {
            assert(all[a] == before[a]);
            lemma_cleanup_shape(root, entries, (count - 1) as nat, a);
            lemma_cleanup_shape(root, entries, count, b);
            lemma_part_shape(entries, entry.path, b - before.len());
            let earlier = all[a]->RemoveDir_path;
            let later = all[b]->RemoveDir_path;
            let j = lemma_stray_of_earlier(root, entries, (count - 1) as nat, a);
            if under(later, earlier) {
                if earlier != entries[j].path {
                    lemma_under_transitive(later, earlier, entries[j].path);
                }
                lemma_same_top_folder(root, entries[j].path, entry.path, later);
                assert(entries[j].path != entries[count - 1].path);
            }
        }
    }
}

/// Each removal for one folder removes something at or below the folder.
pub proof fn lemma_part_shape(entries: Seq<FileInfoView>, dir: Seq<char>, k: int)
    requires
        0 <= k < removals(entries, entries_at_or_under(entries, dir)).len(),
    ensures
        removals(entries, entries_at_or_under(entries, dir))[k] is RemoveDir,
        at_or_under(removals(entries, entries_at_or_under(entries, dir))[k]->RemoveDir_path, dir),
{
    let candidates = entries_at_or_under(entries, dir);
    lemma_removed_index(entries, candidates, k, k);
    entries.lemma_filter_pred(
        |e: FileInfoView| e.path == dir || under(e.path, dir),
        removed_index(entries, candidates, k),
    );
}

/// The stray folder to which a removal among the first belongs is among
/// the first entries.
pub proof fn lemma_stray_of_earlier(
    root: Seq<char>,
    entries: Seq<FileInfoView>,
    count: nat,
    k: int,
) -> (j: int)
    requires
        count <= entries.len(),
        0 <= k < cleanup_operations(root, entries, count).len(),
    ensures
        0 <= j < count,
        is_stray_folder(root, entries[j]),
        cleanup_operations(root, entries, count)[k] is RemoveDir,
        at_or_under(cleanup_operations(root, entries, count)[k]->RemoveDir_path, entries[j].path),
    decreases count,
{
    let before = cleanup_operations(root, entries, (count - 1) as nat);
    if k < before.len() {
        let j = lemma_stray_of_earlier(root, entries, (count - 1) as nat, k);
        assert(cleanup_operations(root, entries, count)[k] == before[k]);
        j
    } else {
        let entry = entries[count - 1];
        lemma_part_shape(entries, entry.path, k - before.len());
        assert(cleanup_operations(root, entries, count)[k] == removals(
            entries,
            entries_at_or_under(entries, entry.path),
        )[k - before.len()]);
        count - 1
    }
}

} // verus!
