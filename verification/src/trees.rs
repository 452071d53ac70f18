use crate::fs_tree::{Node, Tree};
use vstd::prelude::*;

verus! {

use crate::fs_tree::{
    dir_dropped, dir_fresh, dir_hooked, dir_unhooked, tree_ok, with_file, without_file,
};

/// Two trees have the same files and directories, with the same content in the same order.
pub open spec fn alike(t: Tree, u: Tree) -> bool {
    &&& u.dirs == t.dirs
    &&& u.files == t.files
    &&& forall|d: int| #[trigger]
        t.dirs.contains_key(d) ==> u.sub_dirs[d] == t.sub_dirs[d] && u.sub_files[d]
            == t.sub_files[d]
}

/// What a directory lists of one kind has changed by one more at its end, and in no other
/// directory.
pub open spec fn one_more(
    old_lists: Map<int, Seq<int>>,
    new_lists: Map<int, Seq<int>>,
    p: int,
    x: int,
) -> bool {
    &&& new_lists[p].drop_last() == old_lists[p]
    &&& new_lists[p].last() == x
    &&& forall|d: int| d != p ==> #[trigger] new_lists[d] == old_lists[d]
}

/// A new file is the newest one of its directory. Nothing else changes.
pub proof fn law_new_file_is_listed(t: Tree, f: int, p: int, name: Seq<u8>, data: Seq<u8>)
    ensures
        ({
            let u = with_file(t, f, p, name, data);
            &&& u.files[f] == (Node { parent: p, name, data })
            &&& u.files.remove(f) == t.files.remove(f)
            &&& one_more(t.sub_files, u.sub_files, p, f)
            &&& u.dirs == t.dirs
            &&& u.sub_dirs == t.sub_dirs
        }),
{
    let u = with_file(t, f, p, name, data);
    assert(u.files.remove(f) =~= t.files.remove(f));
    assert(u.sub_files[p].drop_last() =~= t.sub_files[p]);
}

/// A file that has been deleted is gone from its directory, where the others keep their order.
/// Nothing else changes.
pub proof fn law_deleted_file_is_gone(t: Tree, f: int)
    requires
        tree_ok(t, 0),
        t.files.contains_key(f),
    ensures
        ({
            let p = t.files[f].parent;
            let a = t.sub_files[p];
            let b = without_file(t, f).sub_files[p];
            &&& !b.contains(f)
            &&& b.len() + 1 == a.len()
            &&& exists|i: int|
                #![trigger a[i]]
                0 <= i < a.len() && a[i] == f && b == a.take(i) + a.skip(i + 1)
        }),
        without_file(t, f).files == t.files.remove(f),
        without_file(t, f).dirs == t.dirs,
        without_file(t, f).sub_dirs == t.sub_dirs,
        forall|d: int|
            d != t.files[f].parent ==> #[trigger] without_file(t, f).sub_files[d]
                == t.sub_files[d],
{
    let p = t.files[f].parent;
    let i = t.file_pos[f];
    let a = t.sub_files[p];
    let b = without_file(t, f).sub_files[p];
    assert(t.file_item(p, i) == f);
    assert(a[i] == f);
    assert(b =~= a.take(i) + a.skip(i + 1));
    assert forall|k: int| 0 <= k < b.len() implies b[k] != f by {
        let j = if k < i {
            k
        } else {
            k + 1
        };
        assert(b[k] == a[j]);
        assert(t.file_item(p, j) == a[j]);
    }
}

/// To delete a file that has just been made leaves all as it was.
pub proof fn law_delete_undoes_make(t: Tree, f: int, p: int, name: Seq<u8>, data: Seq<u8>)
    requires
        !t.files.contains_key(f),
    ensures
        alike(t, without_file(with_file(t, f, p, name, data), f)),
{
    let u = with_file(t, f, p, name, data);
    let w = without_file(u, f);
    assert(w.files =~= t.files);
    assert(u.sub_files[p].remove(t.sub_files[p].len() as int) =~= t.sub_files[p]);
}

/// To delete a directory that has just been made leaves all as it was.
pub proof fn law_delete_undoes_make_dir(t: Tree, d: int, p: int, name: Seq<u8>, data: Seq<u8>)
    requires
        !t.dirs.contains_key(d),
        t.dirs.contains_key(p),
    ensures
        alike(
            t,
            dir_dropped(dir_unhooked(dir_hooked(dir_fresh(t, d, data), d, p, name), d), d),
        ),
{
    let u = dir_hooked(dir_fresh(t, d, data), d, p, name);
    let w = dir_dropped(dir_unhooked(u, d), d);
    assert(w.dirs =~= t.dirs);
    assert(u.sub_dirs[p].remove(t.sub_dirs[p].len() as int) =~= t.sub_dirs[p]);
}

/// A new directory is empty, and the newest one of the directory that it is in. Nothing else
/// changes.
pub proof fn law_new_directory_is_listed(t: Tree, d: int, p: int, name: Seq<u8>, data: Seq<u8>)
    requires
        p != d,
    ensures
        ({
            let u = dir_hooked(dir_fresh(t, d, data), d, p, name);
            &&& u.dirs[d] == (Node { parent: p, name, data })
            &&& u.dirs.remove(d) == t.dirs.remove(d)
            &&& u.files == t.files
            &&& u.sub_dirs[d].len() == 0
            &&& u.sub_files[d].len() == 0
            &&& u.sub_dirs[p].drop_last() == t.sub_dirs[p]
            &&& u.sub_dirs[p].last() == d
            &&& forall|e: int| e != p && e != d ==> #[trigger] u.sub_dirs[e] == t.sub_dirs[e]
            &&& forall|e: int| e != d ==> #[trigger] u.sub_files[e] == t.sub_files[e]
        }),
{
    let u = dir_hooked(dir_fresh(t, d, data), d, p, name);
    assert(u.dirs.remove(d) =~= t.dirs.remove(d));
    assert(u.sub_dirs[p].drop_last() =~= t.sub_dirs[p]);
}

/// A directory that is moved takes its content with it, gets the new name, and keeps what else is
/// kept of it. In its old place it is no more.
pub proof fn law_moved_directory(t: Tree, d: int, q: int, name: Seq<u8>)
    requires
        tree_ok(t, 0),
        t.dirs.contains_key(d),
        d != 1,
        q != d,
        q != t.dirs[d].parent,
    ensures
        ({
            let u = dir_hooked(dir_unhooked(t, d), d, q, name);
            let p = t.dirs[d].parent;
            &&& u.dirs[d] == (Node { parent: q, name, data: t.dirs[d].data })
            &&& u.dirs.remove(d) == t.dirs.remove(d)
            &&& u.files == t.files
            &&& u.sub_files == t.sub_files
            &&& u.sub_dirs[d] == t.sub_dirs[d]
            &&& u.sub_dirs[q] == t.sub_dirs[q].push(d)
            &&& u.sub_dirs[p].len() + 1 == t.sub_dirs[p].len()
            &&& !u.sub_dirs[p].contains(d)
        }),
{
    let v = dir_unhooked(t, d);
    let u = dir_hooked(v, d, q, name);
    let p = t.dirs[d].parent;
    let i = t.dir_pos[d];
    let a = t.sub_dirs[p];
    assert(t.dir_item(p, i) == d);
    assert(u.dirs.remove(d) =~= t.dirs.remove(d));
    let b = u.sub_dirs[p];
    assert forall|k: int| 0 <= k < b.len() implies b[k] != d by {
        let j = if k < i {
            k
        } else {
            k + 1
        };
        assert(b[k] == a[j]);
        assert(t.dir_item(p, j) == a[j]);
    }
}

} // verus!
