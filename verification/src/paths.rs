//! Paths as plain text. A path is a sequence of characters in which `/`
//! separates the components; nothing else about it is interpreted.

use vstd::prelude::*;
use crate::text::{
    append_str, find_first, find_last, from_chars, lacks, last_index_of, lemma_first_index,
    lemma_last_index, lemma_last_index_absent, lemma_last_index_is, lemma_last_index_split,
    matches_at, slice, starts_with, to_chars,
};

verus! {

/// `dir` as the beginning of the paths below it: with one `/` at its end,
/// unless it is empty or ends with one already.
pub open spec fn dir_prefix(dir: Seq<char>) -> Seq<char> {
    if dir.len() == 0 || dir.last() == '/' {
        dir
    } else {
        dir.push('/')
    }
}

/// The path of `name` inside `base`.
pub open spec fn joined(base: Seq<char>, name: Seq<char>) -> Seq<char> {
    dir_prefix(base) + name
}

/// The last component of `path`: what follows its last `/`.
pub open spec fn file_name_of(path: Seq<char>) -> Seq<char> {
    path.skip(last_index_of(path, '/') + 1)
}

/// The directory that holds `path`: what stands before its last `/`.
/// A path without a `/` lies in the empty path; the empty path and `/` lie
/// nowhere.
pub open spec fn parent_of(path: Seq<char>) -> Option<Seq<char>> {
    let cut = last_index_of(path, '/');
    if cut < 0 {
        if path.len() == 0 {
            None
        } else {
            Some(Seq::<char>::empty())
        }
    } else if cut == 0 {
        if path.len() == 1 {
            None
        } else {
            Some(seq!['/'])
        }
    } else {
        Some(path.take(cut))
    }
}

/// The extension of a file name: what follows its last `.`, and nothing
/// where the name has no `.` or only one at its start.
pub open spec fn extension_of(name: Seq<char>) -> Seq<char> {
    let dot = last_index_of(name, '.');
    if dot <= 0 {
        Seq::<char>::empty()
    } else {
        name.skip(dot + 1)
    }
}

/// `path` lies somewhere below `dir`.
pub open spec fn under(path: Seq<char>, dir: Seq<char>) -> bool {
    path.len() > dir_prefix(dir).len() && starts_with(path, dir_prefix(dir))
}

/// `path` lies directly in `dir`.
pub open spec fn child_of(path: Seq<char>, dir: Seq<char>) -> bool {
    under(path, dir) && lacks(path.skip(dir_prefix(dir).len() as int), '/')
}

fn dir_prefix_chars(dir: &Vec<char>) -> (r: Vec<char>)
    ensures
        r@ == dir_prefix(dir@),
{
    let mut r = slice(dir, 0, dir.len());
    assert(r@ =~= dir@);
    if dir.len() > 0 && dir[dir.len() - 1] != '/' {
        r.push('/');
    }
    r
}

/// The path of `name` inside `base`.
pub fn join(base: &str, name: &str) -> (path: String)
    ensures
        path@ == joined(base@, name@),
{
    let base_chars = to_chars(base);
    let mut r = dir_prefix_chars(&base_chars);
    append_str(&mut r, name);
    from_chars(&r)
}

/// The last component of `path`.
pub fn file_name(path: &str) -> (name: String)
    ensures
        name@ == file_name_of(path@),
{
    let chars = to_chars(path);
    let start: usize = match find_last(&chars, '/') {
        Some(i) => i + 1,
        None => 0,
    };
    let r = slice(&chars, start, chars.len());
    from_chars(&r)
}

/// The directory that holds `path`.
pub fn parent(path: &str) -> (dir: Option<String>)
    ensures
        match dir {
            Some(d) => parent_of(path@) == Some(d@),
            None => parent_of(path@) is None,
        },
{
    let chars = to_chars(path);
    match find_last(&chars, '/') {
        None => {
            if chars.len() == 0 {
                None
            } else {
                Some(String::new())
            }
        },
        Some(cut) => {
            if cut == 0 {
                if chars.len() == 1 {
                    None
                } else {
                    let r = slice(&chars, 0, 1);
                    proof {
                        assert(r@ =~= seq!['/']);
                    }
                    Some(from_chars(&r))
                }
            } else {
                let r = slice(&chars, 0, cut);
                Some(from_chars(&r))
            }
        },
    }
}

/// The extension of the file name `name`, as it is written.
pub fn extension(name: &str) -> (ext: String)
    ensures
        ext@ == extension_of(name@),
{
    let chars = to_chars(name);
    match find_last(&chars, '.') {
        None => String::new(),
        Some(dot) => {
            if dot == 0 {
                String::new()
            } else {
                let r = slice(&chars, dot + 1, chars.len());
                from_chars(&r)
            }
        },
    }
}

/// Whether `path` lies somewhere below `dir`.
pub fn is_under(path: &str, dir: &str) -> (b: bool)
    ensures
        b == under(path@, dir@),
{
    let p = to_chars(path);
    let d = to_chars(dir);
    let prefix = dir_prefix_chars(&d);
    p.len() > prefix.len() && matches_at(&p, &prefix, 0)
}

/// Whether `path` lies directly in `dir`.
pub fn is_direct_child(path: &str, dir: &str) -> (b: bool)
    ensures
        b == child_of(path@, dir@),
{
    let p = to_chars(path);
    let d = to_chars(dir);
    let prefix = dir_prefix_chars(&d);
    if !(p.len() > prefix.len() && matches_at(&p, &prefix, 0)) {
        return false;
    }
    let rest = slice(&p, prefix.len(), p.len());
    proof {
        assert(rest@ =~= p@.skip(prefix@.len() as int));
        lemma_first_index(rest@, '/');
    }
    match find_first(&rest, '/') {
        None => true,
        Some(_) => false,
    }
}

/// The last component of a path has no `/`.
pub proof fn lemma_file_name_lacks_slash(path: Seq<char>)
    ensures
        lacks(file_name_of(path), '/'),
{
    lemma_last_index(path, '/');
}

/// The last component of the path of a name in a folder is that name.
pub proof fn lemma_file_name_joined(base: Seq<char>, name: Seq<char>)
    requires
        lacks(name, '/'),
    ensures
        file_name_of(joined(base, name)) == name,
{
    let prefix = dir_prefix(base);
    let path = prefix + name;
    if prefix.len() == 0 {
        assert(path =~= name);
        lemma_last_index_absent(name, '/');
        assert(path.skip(0) =~= name);
    } else {
        let cut = prefix.len() - 1;
        assert(path[cut] == '/');
        assert forall|j: int| cut < j < path.len() implies #[trigger] path[j] != '/' by {
            assert(path[j] == name[j - prefix.len()]);
        }
        lemma_last_index_is(path, '/', cut);
        assert(path.skip(cut + 1) =~= name);
    }
}

/// The path of a name in a folder lies below the folder.
pub proof fn lemma_joined_under(base: Seq<char>, name: Seq<char>)
    requires
        name.len() > 0,
    ensures
        under(joined(base, name), base),
{
}

/// The path of a name without `/` in a folder lies directly in the folder.
pub proof fn lemma_joined_child(base: Seq<char>, name: Seq<char>)
    requires
        name.len() > 0,
        lacks(name, '/'),
    ensures
        child_of(joined(base, name), base),
{
    assert(joined(base, name).skip(dir_prefix(base).len() as int) =~= name);
}

/// What lies below a folder that lies below another lies below the other.
pub proof fn lemma_under_transitive(path: Seq<char>, middle: Seq<char>, dir: Seq<char>)
    requires
        under(path, middle),
        under(middle, dir),
    ensures
        under(path, dir),
{
    let outer = dir_prefix(dir);
    let inner = dir_prefix(middle);
    assert forall|k: int| 0 <= k < outer.len() implies path[0 + k] == #[trigger] outer[k] by {
        assert(path[0 + k] == inner[k]);
        assert(inner[k] == middle[k]);
        assert(middle[0 + k] == outer[k]);
    }
}

/// The folder of the path of a name without `/` in a folder is that folder.
pub proof fn lemma_parent_joined(base: Seq<char>, name: Seq<char>)
    requires
        base.len() > 0,
        base.last() != '/',
        lacks(name, '/'),
    ensures
        parent_of(joined(base, name)) == Some(base),
{
    let path = joined(base, name);
    assert(path =~= base + seq!['/'] + name);
    lemma_last_index_split(base, '/', name);
    assert(path.take(base.len() as int) =~= base);
}

/// A path is at `dir` or below it.
pub open spec fn at_or_under(path: Seq<char>, dir: Seq<char>) -> bool {
    path == dir || under(path, dir)
}

/// Two folders that lie directly in one folder and have a path at or below
/// both of them are one folder.
pub proof fn lemma_same_top_folder(root: Seq<char>, one: Seq<char>, other: Seq<char>, path: Seq<char>)
    requires
        child_of(one, root),
        child_of(other, root),
        at_or_under(path, one),
        at_or_under(path, other),
    ensures
        one == other,
{
    let r = dir_prefix(root).len() as int;
    assert(one.skip(r)[one.len() - 1 - r] == one.last());
    assert(other.skip(r)[other.len() - 1 - r] == other.last());
    assert(dir_prefix(one) == one.push('/'));
    assert(dir_prefix(other) == other.push('/'));
    assert forall|k: int| 0 <= k < one.len() implies path[k] == #[trigger] one[k] by {
        if path != one {
            assert(path[0 + k] == dir_prefix(one)[k]);
        }
    }
    assert forall|k: int| 0 <= k < other.len() implies path[k] == #[trigger] other[k] by {
        if path != other {
            assert(path[0 + k] == dir_prefix(other)[k]);
        }
    }
    if one.len() < other.len() {
        let at = one.len() as int;
        assert(path != one);
        assert(path[0 + at] == dir_prefix(one)[at]);
        assert(other.skip(r)[at - r] == other[at]);
        assert(false);
    }
    if other.len() < one.len() {
        let at = other.len() as int;
        assert(path != other);
        assert(path[0 + at] == dir_prefix(other)[at]);
        assert(one.skip(r)[at - r] == one[at]);
        assert(false);
    }
    assert(one =~= other);
}

} // verus!
