use vstd::prelude::*;

verus! {

use crate::little_endian::{le32, le_bytes, lemma_le32_of_bytes};
use crate::random_access_file::spliced;

/// An entry of a table: key and info.
pub type Row = (Seq<u8>, Seq<u8>);

/// A file or a directory: the directory that it is in, its name, and what else is kept of it.
pub struct Node {
    pub parent: int,
    pub name: Seq<u8>,
    pub data: Seq<u8>,
}

/// The files and directories of an archive by their indices, and the content of each directory,
/// with the newest file or directory at the end.
pub struct Tree {
    pub dirs: Map<int, Node>,
    pub files: Map<int, Node>,
    pub sub_dirs: Map<int, Seq<int>>,
    pub sub_files: Map<int, Seq<int>>,
    pub dir_pos: Map<int, int>,
    pub file_pos: Map<int, int>,
}

impl Tree {
    pub open spec fn dir_item(self, d: int, i: int) -> int {
        self.sub_dirs[d][i]
    }

    pub open spec fn file_item(self, d: int, i: int) -> int {
        self.sub_files[d][i]
    }
}

/// The first one of a list, or 0.
pub open spec fn top(l: Seq<int>) -> int {
    if l.len() == 0 {
        0
    } else {
        l.last()
    }
}

/// The one behind item `i` of a list, or 0.
pub open spec fn below(l: Seq<int>, i: int) -> int {
    if i == 0 {
        0
    } else {
        l[i - 1]
    }
}

/// The bytes with a word replaced.
pub open spec fn with32(s: Seq<u8>, off: int, v: nat) -> Seq<u8> {
    spliced(s, off, le_bytes(v, 4))
}

pub proof fn lemma_with32(s: Seq<u8>, off: int, v: nat)
    requires
        0 <= off,
        off + 4 <= s.len(),
        v < 0x1_0000_0000,
    ensures
        with32(s, off, v).len() == s.len(),
        le32(with32(s, off, v), off) == v,
        forall|p: int|
            0 <= p && p + 4 <= s.len() && (p + 4 <= off || off + 4 <= p) ==> #[trigger] le32(
                with32(s, off, v),
                p,
            ) == le32(s, p),
        forall|p: int|
            off + 4 <= p <= s.len() ==> #[trigger] with32(s, off, v).skip(p) == s.skip(p),
{
    lemma_le32_of_bytes(v);
    let t = with32(s, off, v);
    assert(t.subrange(off, off + 4) =~= le_bytes(v, 4));
    assert forall|p: int|
        0 <= p && p + 4 <= s.len() && (p + 4 <= off || off + 4 <= p) implies #[trigger] le32(t, p)
        == le32(s, p) by {
        assert(t.subrange(p, p + 4) =~= s.subrange(p, p + 4));
    }
    assert forall|p: int| off + 4 <= p <= s.len() implies #[trigger] t.skip(p) == s.skip(p) by {
        assert(t.skip(p) =~= s.skip(p));
    }
}

/// The key of an entry: the index of the directory that it is in, and the name.
pub open spec fn key_of(parent: int, name: Seq<u8>) -> Seq<u8> {
    le_bytes(parent as nat, 4) + name
}

pub proof fn lemma_key_of(parent: int, name: Seq<u8>)
    requires
        0 <= parent < 0x1_0000_0000,
    ensures
        key_of(parent, name).len() == 4 + name.len(),
        le32(key_of(parent, name), 0) == parent,
        key_of(parent, name).skip(4) == name,
{
    lemma_le32_of_bytes(parent as nat);
    let k = key_of(parent, name);
    assert(k.subrange(0, 4) =~= le_bytes(parent as nat, 4));
    assert(k.skip(4) =~= name);
}

/// The indices of the tree fit together. Where `hole` is not 0, it is a directory that is in no
/// directory for the moment.
pub open spec fn tree_ok(t: Tree, hole: int) -> bool {
    &&& t.dirs.contains_key(1)
    &&& hole != 1
    &&& hole != 0 ==> t.dirs.contains_key(hole)
    &&& t.dirs[1].parent == 0
    &&& forall|d: int| #[trigger] t.dirs.contains_key(d) ==> 1 <= d < 0x1_0000_0000
    &&& forall|f: int| #[trigger] t.files.contains_key(f) ==> 1 <= f < 0x1_0000_0000
    &&& forall|d: int| #[trigger]
        t.dirs.contains_key(d) && d != 1 && d != hole ==> {
            let p = t.dirs[d].parent;
            &&& t.dirs.contains_key(p)
            &&& p != d
            &&& 0 <= t.dir_pos[d] < t.sub_dirs[p].len()
            &&& t.dir_item(p, t.dir_pos[d]) == d
        }
    &&& forall|f: int| #[trigger]
        t.files.contains_key(f) ==> {
            let p = t.files[f].parent;
            &&& t.dirs.contains_key(p)
            &&& 0 <= t.file_pos[f] < t.sub_files[p].len()
            &&& t.file_item(p, t.file_pos[f]) == f
        }
    &&& forall|d: int, i: int|
        t.dirs.contains_key(d) && 0 <= i < t.sub_dirs[d].len() ==> {
            let c = #[trigger] t.dir_item(d, i);
            &&& t.dirs.contains_key(c)
            &&& c != 1
            &&& c != hole
            &&& t.dirs[c].parent == d
            &&& t.dir_pos[c] == i
        }
    &&& forall|d: int, i: int|
        t.dirs.contains_key(d) && 0 <= i < t.sub_files[d].len() ==> {
            let c = #[trigger] t.file_item(d, i);
            &&& t.files.contains_key(c)
            &&& t.files[c].parent == d
            &&& t.file_pos[c] == i
        }
}

/// The entry of directory `d`.
pub open spec fn dir_row(t: Tree, d: int, row: Row) -> bool {
    let node = t.dirs[d];
    &&& row.0 == key_of(node.parent, node.name)
    &&& row.1.len() >= 12
    &&& le32(row.1, 4) == top(t.sub_dirs[d])
    &&& le32(row.1, 8) == top(t.sub_files[d])
    &&& row.1.skip(12) == node.data
    &&& d != 1 ==> le32(row.1, 0) == below(t.sub_dirs[node.parent], t.dir_pos[d])
}

/// The entry of file `f`.
pub open spec fn file_row(t: Tree, f: int, row: Row) -> bool {
    let node = t.files[f];
    &&& row.0 == key_of(node.parent, node.name)
    &&& row.1.len() >= 4
    &&& row.1.skip(4) == node.data
    &&& le32(row.1, 0) == below(t.sub_files[node.parent], t.file_pos[f])
}

/// The tables hold the tree. The directory `hole`, if it is not 0, has no entry.
pub open spec fn tree_stored(dirs: Map<int, Row>, files: Map<int, Row>, t: Tree, hole: int) -> bool {
    &&& tree_ok(t, hole)
    &&& hole != 0 ==> !dirs.contains_key(hole)
    &&& forall|d: int| #[trigger]
        dirs.contains_key(d) ==> t.dirs.contains_key(d) && dir_row(t, d, dirs[d])
    &&& forall|d: int| #[trigger] t.dirs.contains_key(d) && d != hole ==> dirs.contains_key(d)
    &&& forall|f: int| #[trigger]
        files.contains_key(f) ==> t.files.contains_key(f) && file_row(t, f, files[f])
    &&& forall|f: int| #[trigger] t.files.contains_key(f) ==> files.contains_key(f)
}

/// The tree with file `f` added to directory `p`, as its newest file.
pub open spec fn with_file(t: Tree, f: int, p: int, name: Seq<u8>, data: Seq<u8>) -> Tree {
    Tree {
        files: t.files.insert(f, Node { parent: p, name, data }),
        sub_files: t.sub_files.insert(p, t.sub_files[p].push(f)),
        file_pos: t.file_pos.insert(f, t.sub_files[p].len() as int),
        ..t
    }
}

/// The tables with an entry for a new file.
pub proof fn lemma_file_put(
    dirs: Map<int, Row>,
    files: Map<int, Row>,
    t: Tree,
    f: int,
    p: int,
    name: Seq<u8>,
    info: Seq<u8>,
)
    requires
        tree_stored(dirs, files, t, 0),
        dirs.contains_key(p),
        !files.contains_key(f),
        1 <= f < 0x1_0000_0000,
        info.len() >= 4,
        le32(info, 0) == le32(dirs[p].1, 8),
    ensures
        tree_stored(
            dirs.insert(p, (dirs[p].0, with32(dirs[p].1, 8, f as nat))),
            files.insert(f, (key_of(p, name), info)),
            with_file(t, f, p, name, info.skip(4)),
            0,
        ),
{
    let d2 = dirs.insert(p, (dirs[p].0, with32(dirs[p].1, 8, f as nat)));
    let f2 = files.insert(f, (key_of(p, name), info));
    let u = with_file(t, f, p, name, info.skip(4));
    lemma_with32(dirs[p].1, 8, f as nat);
    let n = t.sub_files[p].len() as int;
    assert(u.file_item(p, n) == f);
    assert forall|d: int, i: int|
        u.dirs.contains_key(d) && 0 <= i < u.sub_files[d].len() implies ({
        let c = #[trigger] u.file_item(d, i);
        &&& u.files.contains_key(c)
        &&& u.files[c].parent == d
        &&& u.file_pos[c] == i
    }) by {
        if !(d == p && i == n) {
            assert(t.file_item(d, i) == u.file_item(d, i));
        }
    }
    assert forall|x: int| #[trigger] u.files.contains_key(x) implies ({
        let q = u.files[x].parent;
        &&& u.dirs.contains_key(q)
        &&& 0 <= u.file_pos[x] < u.sub_files[q].len()
        &&& u.file_item(q, u.file_pos[x]) == x
    }) by {
        if x != f {
            assert(t.files.contains_key(x));
            let q = t.files[x].parent;
            assert(t.file_item(q, t.file_pos[x]) == x);
        }
    }
    assert forall|d: int, i: int|
        u.dirs.contains_key(d) && 0 <= i < u.sub_dirs[d].len() implies ({
        let c = #[trigger] u.dir_item(d, i);
        &&& u.dirs.contains_key(c)
        &&& c != 1
        &&& c != 0
        &&& u.dirs[c].parent == d
        &&& u.dir_pos[c] == i
    }) by {
        assert(t.dir_item(d, i) == u.dir_item(d, i));
        assert(t.dirs.contains_key(t.dir_item(d, i)));
    }
    assert forall|d: int| #[trigger] u.dirs.contains_key(d) && d != 1 implies ({
        let q = u.dirs[d].parent;
        &&& u.dirs.contains_key(q)
        &&& q != d
        &&& 0 <= u.dir_pos[d] < u.sub_dirs[q].len()
        &&& u.dir_item(q, u.dir_pos[d]) == d
    }) by {
        assert(t.dirs.contains_key(d));
    }
    assert(tree_ok(u, 0));
    assert forall|x: int| #[trigger] f2.contains_key(x) implies u.files.contains_key(x) && file_row(
        u,
        x,
        f2[x],
    ) by {
        if x != f {
            assert(files.contains_key(x));
            assert(file_row(t, x, files[x]));
        } else {
            assert(t.dirs.contains_key(p));
            assert(dir_row(t, p, dirs[p]));
        }
    }
    assert forall|d: int| #[trigger] d2.contains_key(d) implies u.dirs.contains_key(d) && dir_row(
        u,
        d,
        d2[d],
    ) by {
        assert(dirs.contains_key(d));
        assert(dir_row(t, d, dirs[d]));
    }
}

/// The tree without file `f`.
pub open spec fn without_file(t: Tree, f: int) -> Tree {
    let p = t.files[f].parent;
    let i = t.file_pos[f];
    Tree {
        files: t.files.remove(f),
        sub_files: t.sub_files.insert(p, t.sub_files[p].remove(i)),
        file_pos: Map::new(
            |x: int| true,
            |x: int|
                if t.files[x].parent == p && t.file_pos[x] > i {
                    t.file_pos[x] - 1
                } else {
                    t.file_pos[x]
                },
        ),
        ..t
    }
}

/// The directory table after file `f` has been unlinked.
pub open spec fn dirs_without_file(dirs: Map<int, Row>, files: Map<int, Row>, t: Tree, f: int) -> Map<
    int,
    Row,
> {
    let p = t.files[f].parent;
    let i = t.file_pos[f];
    if i == t.sub_files[p].len() - 1 {
        dirs.insert(p, (dirs[p].0, with32(dirs[p].1, 8, le32(files[f].1, 0))))
    } else {
        dirs
    }
}

/// The file table after file `f` has been unlinked.
pub open spec fn files_without_file(files: Map<int, Row>, t: Tree, f: int) -> Map<int, Row> {
    let p = t.files[f].parent;
    let i = t.file_pos[f];
    if i == t.sub_files[p].len() - 1 {
        files
    } else {
        let x = t.sub_files[p][i + 1];
        files.insert(x, (files[x].0, with32(files[x].1, 0, le32(files[f].1, 0))))
    }
}

pub proof fn lemma_file_taken(dirs: Map<int, Row>, files: Map<int, Row>, t: Tree, f: int)
    requires
        tree_stored(dirs, files, t, 0),
        files.contains_key(f),
        le32(files[f].1, 0) < 0x1_0000_0000,
    ensures
        tree_stored(
            dirs_without_file(dirs, files, t, f),
            files_without_file(files, t, f).remove(f),
            without_file(t, f),
            0,
        ),
{
    let d2 = dirs_without_file(dirs, files, t, f);
    let f1 = files_without_file(files, t, f);
    let f2 = f1.remove(f);
    let u = without_file(t, f);
    let p = t.files[f].parent;
    let i = t.file_pos[f];
    let l = t.sub_files[p];
    let next = le32(files[f].1, 0);
    assert(t.files.contains_key(f));
    assert(t.file_item(p, i) == f);
    assert(file_row(t, f, files[f]));
    assert(next == below(l, i));
    let x = l[i + 1];
    if i == l.len() - 1 {
        assert(t.dirs.contains_key(p));
        assert(dirs.contains_key(p));
        assert(dir_row(t, p, dirs[p]));
        lemma_with32(dirs[p].1, 8, next);
    } else {
        assert(t.file_item(p, i + 1) == x);
        assert(t.files.contains_key(x));
        assert(files.contains_key(x));
        assert(file_row(t, x, files[x]));
        lemma_with32(files[x].1, 0, next);
    }
    assert forall|d: int, j: int|
        u.dirs.contains_key(d) && 0 <= j < u.sub_files[d].len() implies ({
        let c = #[trigger] u.file_item(d, j);
        &&& u.files.contains_key(c)
        &&& u.files[c].parent == d
        &&& u.file_pos[c] == j
    }) by {
        if d == p && j >= i {
            assert(t.file_item(d, j + 1) == u.file_item(d, j));
        } else {
            assert(t.file_item(d, j) == u.file_item(d, j));
        }
    }
    assert forall|y: int| #[trigger] u.files.contains_key(y) implies ({
        let q = u.files[y].parent;
        &&& u.dirs.contains_key(q)
        &&& 0 <= u.file_pos[y] < u.sub_files[q].len()
        &&& u.file_item(q, u.file_pos[y]) == y
    }) by {
        assert(t.files.contains_key(y));
        let q = t.files[y].parent;
        assert(t.file_item(q, t.file_pos[y]) == y);
        if q == p {
            assert(t.file_pos[y] != i);
        }
    }
    assert forall|d: int, j: int|
        u.dirs.contains_key(d) && 0 <= j < u.sub_dirs[d].len() implies ({
        let c = #[trigger] u.dir_item(d, j);
        &&& u.dirs.contains_key(c)
        &&& c != 1
        &&& c != 0
        &&& u.dirs[c].parent == d
        &&& u.dir_pos[c] == j
    }) by {
        assert(t.dir_item(d, j) == u.dir_item(d, j));
        assert(t.dirs.contains_key(t.dir_item(d, j)));
    }
    assert forall|d: int| #[trigger] u.dirs.contains_key(d) && d != 1 implies ({
        let q = u.dirs[d].parent;
        &&& u.dirs.contains_key(q)
        &&& q != d
        &&& 0 <= u.dir_pos[d] < u.sub_dirs[q].len()
        &&& u.dir_item(q, u.dir_pos[d]) == d
    }) by {
        assert(t.dirs.contains_key(d));
    }
    assert(tree_ok(u, 0));
    assert forall|y: int| #[trigger] f2.contains_key(y) implies u.files.contains_key(y) && file_row(
        u,
        y,
        f2[y],
    ) by {
        assert(files.contains_key(y));
        assert(file_row(t, y, files[y]));
        assert(t.files.contains_key(y));
        let q = t.files[y].parent;
        let j = t.file_pos[y];
        assert(t.file_item(q, j) == y);
        if q == p {
            assert(j != i);
            if j == i + 1 {
                assert(y == x);
            } else if i < l.len() - 1 {
                assert(t.file_pos[x] == i + 1);
                assert(y != x);
            }
        } else if i < l.len() - 1 {
            assert(t.files[x].parent == p);
            assert(y != x);
        }
    }
    assert forall|d: int| #[trigger] d2.contains_key(d) implies u.dirs.contains_key(d) && dir_row(
        u,
        d,
        d2[d],
    ) by {
        assert(dirs.contains_key(d));
        assert(dir_row(t, d, dirs[d]));
    }
}

/// The tree with directory `d` taken out of the directory that it is in.
pub open spec fn dir_unhooked(t: Tree, d: int) -> Tree {
    let p = t.dirs[d].parent;
    let i = t.dir_pos[d];
    Tree {
        sub_dirs: t.sub_dirs.insert(p, t.sub_dirs[p].remove(i)),
        dir_pos: Map::new(
            |x: int| true,
            |x: int|
                if t.dirs[x].parent == p && t.dir_pos[x] > i {
                    t.dir_pos[x] - 1
                } else {
                    t.dir_pos[x]
                },
        ),
        ..t
    }
}

/// The directory table after directory `d` has been unlinked.
pub open spec fn dirs_unlinked(dirs: Map<int, Row>, t: Tree, d: int) -> Map<int, Row> {
    let p = t.dirs[d].parent;
    let i = t.dir_pos[d];
    let next = le32(dirs[d].1, 0);
    if i == t.sub_dirs[p].len() - 1 {
        dirs.insert(p, (dirs[p].0, with32(dirs[p].1, 4, next)))
    } else {
        let x = t.sub_dirs[p][i + 1];
        dirs.insert(x, (dirs[x].0, with32(dirs[x].1, 0, next)))
    }
}

pub proof fn lemma_dir_taken(dirs: Map<int, Row>, files: Map<int, Row>, t: Tree, d: int)
    requires
        tree_stored(dirs, files, t, 0),
        dirs.contains_key(d),
        d != 1,
        le32(dirs[d].1, 0) < 0x1_0000_0000,
    ensures
        tree_stored(dirs_unlinked(dirs, t, d).remove(d), files, dir_unhooked(t, d), d),
{
    let d1 = dirs_unlinked(dirs, t, d);
    let d2 = d1.remove(d);
    let u = dir_unhooked(t, d);
    let p = t.dirs[d].parent;
    let i = t.dir_pos[d];
    let l = t.sub_dirs[p];
    let next = le32(dirs[d].1, 0);
    assert(t.dirs.contains_key(d));
    assert(t.dir_item(p, i) == d);
    assert(dir_row(t, d, dirs[d]));
    assert(next == below(l, i));
    let x = l[i + 1];
    if i == l.len() - 1 {
        assert(t.dirs.contains_key(p));
        assert(dirs.contains_key(p));
        assert(dir_row(t, p, dirs[p]));
        lemma_with32(dirs[p].1, 4, next);
    } else {
        assert(t.dir_item(p, i + 1) == x);
        assert(t.dirs.contains_key(x));
        assert(dirs.contains_key(x));
        assert(dir_row(t, x, dirs[x]));
        lemma_with32(dirs[x].1, 0, next);
    }
    assert forall|e: int, j: int|
        u.dirs.contains_key(e) && 0 <= j < u.sub_dirs[e].len() implies ({
        let c = #[trigger] u.dir_item(e, j);
        &&& u.dirs.contains_key(c)
        &&& c != 1
        &&& c != d
        &&& u.dirs[c].parent == e
        &&& u.dir_pos[c] == j
    }) by {
        if e == p && j >= i {
            assert(t.dir_item(e, j + 1) == u.dir_item(e, j));
        } else {
            assert(t.dir_item(e, j) == u.dir_item(e, j));
        }
    }
    assert forall|e: int| #[trigger] u.dirs.contains_key(e) && e != 1 && e != d implies ({
        let q = u.dirs[e].parent;
        &&& u.dirs.contains_key(q)
        &&& q != e
        &&& 0 <= u.dir_pos[e] < u.sub_dirs[q].len()
        &&& u.dir_item(q, u.dir_pos[e]) == e
    }) by {
        assert(t.dirs.contains_key(e));
        let q = t.dirs[e].parent;
        assert(t.dir_item(q, t.dir_pos[e]) == e);
        if q == p {
            assert(t.dir_pos[e] != i);
        }
    }
    assert forall|e: int, j: int|
        u.dirs.contains_key(e) && 0 <= j < u.sub_files[e].len() implies ({
        let c = #[trigger] u.file_item(e, j);
        &&& u.files.contains_key(c)
        &&& u.files[c].parent == e
        &&& u.file_pos[c] == j
    }) by {
        assert(t.file_item(e, j) == u.file_item(e, j));
        assert(t.files.contains_key(t.file_item(e, j)));
    }
    assert forall|f: int| #[trigger] u.files.contains_key(f) implies ({
        let q = u.files[f].parent;
        &&& u.dirs.contains_key(q)
        &&& 0 <= u.file_pos[f] < u.sub_files[q].len()
        &&& u.file_item(q, u.file_pos[f]) == f
    }) by {
        assert(t.files.contains_key(f));
    }
    assert(tree_ok(u, d));
    assert forall|e: int| #[trigger] d2.contains_key(e) implies u.dirs.contains_key(e) && dir_row(
        u,
        e,
        d2[e],
    ) by {
        assert(dirs.contains_key(e));
        assert(dir_row(t, e, dirs[e]));
        assert(t.dirs.contains_key(e));
        if e != 1 {
            let q = t.dirs[e].parent;
            let j = t.dir_pos[e];
            assert(t.dir_item(q, j) == e);
            if q == p {
                assert(j != i);
                if j == i + 1 {
                    assert(e == x);
                } else if i < l.len() - 1 {
                    assert(t.dir_pos[x] == i + 1);
                    assert(e != x);
                }
            } else if i < l.len() - 1 {
                assert(t.dirs[x].parent == p);
                assert(e != x);
            }
        }
    }
    assert forall|f: int| #[trigger] files.contains_key(f) implies u.files.contains_key(f)
        && file_row(u, f, files[f]) by {
        assert(file_row(t, f, files[f]));
    }
}

/// The tree with the directory `d`, which is in no directory, put into directory `p`.
pub open spec fn dir_hooked(t: Tree, d: int, p: int, name: Seq<u8>) -> Tree {
    Tree {
        dirs: t.dirs.insert(d, Node { parent: p, name, data: t.dirs[d].data }),
        sub_dirs: t.sub_dirs.insert(p, t.sub_dirs[p].push(d)),
        dir_pos: t.dir_pos.insert(d, t.sub_dirs[p].len() as int),
        ..t
    }
}

pub proof fn lemma_dir_put(
    dirs: Map<int, Row>,
    files: Map<int, Row>,
    t: Tree,
    d: int,
    p: int,
    name: Seq<u8>,
    info: Seq<u8>,
)
    requires
        tree_stored(dirs, files, t, d),
        d != 0,
        dirs.contains_key(p),
        p != d,
        info.len() >= 12,
        le32(info, 0) == le32(dirs[p].1, 4),
        le32(info, 4) == top(t.sub_dirs[d]),
        le32(info, 8) == top(t.sub_files[d]),
        info.skip(12) == t.dirs[d].data,
    ensures
        tree_stored(
            dirs.insert(d, (key_of(p, name), info)).insert(
                p,
                (dirs[p].0, with32(dirs[p].1, 4, d as nat)),
            ),
            files,
            dir_hooked(t, d, p, name),
            0,
        ),
{
    let d2 = dirs.insert(d, (key_of(p, name), info)).insert(
        p,
        (dirs[p].0, with32(dirs[p].1, 4, d as nat)),
    );
    let u = dir_hooked(t, d, p, name);
    assert(t.dirs.contains_key(d));
    assert(dir_row(t, p, dirs[p]));
    lemma_with32(dirs[p].1, 4, d as nat);
    let n = t.sub_dirs[p].len() as int;
    assert(u.dir_item(p, n) == d);
    assert forall|e: int, j: int|
        u.dirs.contains_key(e) && 0 <= j < u.sub_dirs[e].len() implies ({
        let c = #[trigger] u.dir_item(e, j);
        &&& u.dirs.contains_key(c)
        &&& c != 1
        &&& c != 0
        &&& u.dirs[c].parent == e
        &&& u.dir_pos[c] == j
    }) by {
        if !(e == p && j == n) {
            assert(t.dir_item(e, j) == u.dir_item(e, j));
            assert(t.dirs.contains_key(t.dir_item(e, j)));
        }
    }
    assert forall|e: int| #[trigger] u.dirs.contains_key(e) && e != 1 implies ({
        let q = u.dirs[e].parent;
        &&& u.dirs.contains_key(q)
        &&& q != e
        &&& 0 <= u.dir_pos[e] < u.sub_dirs[q].len()
        &&& u.dir_item(q, u.dir_pos[e]) == e
    }) by {
        if e != d {
            assert(t.dirs.contains_key(e));
            let q = t.dirs[e].parent;
            assert(t.dir_item(q, t.dir_pos[e]) == e);
        }
    }
    assert forall|e: int, j: int|
        u.dirs.contains_key(e) && 0 <= j < u.sub_files[e].len() implies ({
        let c = #[trigger] u.file_item(e, j);
        &&& u.files.contains_key(c)
        &&& u.files[c].parent == e
        &&& u.file_pos[c] == j
    }) by {
        assert(t.file_item(e, j) == u.file_item(e, j));
        assert(t.files.contains_key(t.file_item(e, j)));
    }
    assert forall|f: int| #[trigger] u.files.contains_key(f) implies ({
        let q = u.files[f].parent;
        &&& u.dirs.contains_key(q)
        &&& 0 <= u.file_pos[f] < u.sub_files[q].len()
        &&& u.file_item(q, u.file_pos[f]) == f
    }) by {
        assert(t.files.contains_key(f));
        assert(t.dirs.contains_key(t.files[f].parent));
    }
    assert(tree_ok(u, 0));
    assert forall|e: int| #[trigger] d2.contains_key(e) implies u.dirs.contains_key(e) && dir_row(
        u,
        e,
        d2[e],
    ) by {
        if e != d {
            assert(dirs.contains_key(e));
            assert(dir_row(t, e, dirs[e]));
            assert(t.dirs.contains_key(e));
            if e != 1 {
                let q = t.dirs[e].parent;
                assert(t.dir_item(q, t.dir_pos[e]) == e);
            }
        }
    }
    assert forall|f: int| #[trigger] files.contains_key(f) implies u.files.contains_key(f)
        && file_row(u, f, files[f]) by {
        assert(file_row(t, f, files[f]));
    }
    assert forall|e: int| #[trigger] u.dirs.contains_key(e) implies d2.contains_key(e) by {
        if e != d {
            assert(t.dirs.contains_key(e));
        }
    }
}

/// The tree without directory `d`, which is in no directory.
pub open spec fn dir_dropped(t: Tree, d: int) -> Tree {
    Tree { dirs: t.dirs.remove(d), ..t }
}

pub proof fn lemma_dir_dropped(dirs: Map<int, Row>, files: Map<int, Row>, t: Tree, d: int)
    requires
        tree_stored(dirs, files, t, d),
        d != 0,
        t.sub_dirs[d].len() == 0,
        t.sub_files[d].len() == 0,
    ensures
        tree_stored(dirs, files, dir_dropped(t, d), 0),
{
    let u = dir_dropped(t, d);
    assert forall|e: int| #[trigger] u.dirs.contains_key(e) && e != 1 implies ({
        let q = u.dirs[e].parent;
        &&& u.dirs.contains_key(q)
        &&& q != e
        &&& 0 <= u.dir_pos[e] < u.sub_dirs[q].len()
        &&& u.dir_item(q, u.dir_pos[e]) == e
    }) by {
        assert(t.dirs.contains_key(e));
        let q = t.dirs[e].parent;
        assert(t.dir_item(q, t.dir_pos[e]) == e);
    }
    assert forall|f: int| #[trigger] u.files.contains_key(f) implies ({
        let q = u.files[f].parent;
        &&& u.dirs.contains_key(q)
        &&& 0 <= u.file_pos[f] < u.sub_files[q].len()
        &&& u.file_item(q, u.file_pos[f]) == f
    }) by {
        assert(t.files.contains_key(f));
        let q = t.files[f].parent;
        assert(t.file_item(q, t.file_pos[f]) == f);
    }
    assert forall|e: int, j: int|
        u.dirs.contains_key(e) && 0 <= j < u.sub_files[e].len() implies ({
        let c = #[trigger] u.file_item(e, j);
        &&& u.files.contains_key(c)
        &&& u.files[c].parent == e
        &&& u.file_pos[c] == j
    }) by {
        assert(t.file_item(e, j) == u.file_item(e, j));
        assert(t.files.contains_key(t.file_item(e, j)));
    }
    assert forall|e: int, j: int|
        u.dirs.contains_key(e) && 0 <= j < u.sub_dirs[e].len() implies ({
        let c = #[trigger] u.dir_item(e, j);
        &&& u.dirs.contains_key(c)
        &&& c != 1
        &&& c != 0
        &&& u.dirs[c].parent == e
        &&& u.dir_pos[c] == j
    }) by {
        assert(t.dir_item(e, j) == u.dir_item(e, j));
        assert(t.dirs.contains_key(t.dir_item(e, j)));
    }
    assert(tree_ok(u, 0));
    assert forall|e: int| #[trigger] dirs.contains_key(e) implies u.dirs.contains_key(e) && dir_row(
        u,
        e,
        dirs[e],
    ) by {
        assert(dir_row(t, e, dirs[e]));
    }
    assert forall|f: int| #[trigger] files.contains_key(f) implies u.files.contains_key(f)
        && file_row(u, f, files[f]) by {
        assert(file_row(t, f, files[f]));
    }
    assert forall|e: int| #[trigger] u.dirs.contains_key(e) implies dirs.contains_key(e) by {
        assert(t.dirs.contains_key(e));
    }
}

/// The tree with a new directory `d`, which is in no directory and is empty.
pub open spec fn dir_fresh(t: Tree, d: int, data: Seq<u8>) -> Tree {
    Tree {
        dirs: t.dirs.insert(d, Node { parent: 0, name: Seq::empty(), data }),
        sub_dirs: t.sub_dirs.insert(d, Seq::empty()),
        sub_files: t.sub_files.insert(d, Seq::empty()),
        ..t
    }
}

pub proof fn lemma_dir_fresh(
    dirs: Map<int, Row>,
    files: Map<int, Row>,
    t: Tree,
    d: int,
    data: Seq<u8>,
)
    requires
        tree_stored(dirs, files, t, 0),
        !dirs.contains_key(d),
        1 <= d < 0x1_0000_0000,
    ensures
        tree_stored(dirs, files, dir_fresh(t, d, data), d),
{
    let u = dir_fresh(t, d, data);
    assert(!t.dirs.contains_key(d));
    assert forall|e: int| #[trigger] u.dirs.contains_key(e) && e != 1 && e != d implies ({
        let q = u.dirs[e].parent;
        &&& u.dirs.contains_key(q)
        &&& q != e
        &&& 0 <= u.dir_pos[e] < u.sub_dirs[q].len()
        &&& u.dir_item(q, u.dir_pos[e]) == e
    }) by {
        assert(t.dirs.contains_key(e));
        let q = t.dirs[e].parent;
        assert(t.dirs.contains_key(q));
        assert(t.dir_item(q, t.dir_pos[e]) == e);
    }
    assert forall|f: int| #[trigger] u.files.contains_key(f) implies ({
        let q = u.files[f].parent;
        &&& u.dirs.contains_key(q)
        &&& 0 <= u.file_pos[f] < u.sub_files[q].len()
        &&& u.file_item(q, u.file_pos[f]) == f
    }) by {
        assert(t.files.contains_key(f));
        let q = t.files[f].parent;
        assert(t.dirs.contains_key(q));
        assert(t.file_item(q, t.file_pos[f]) == f);
    }
    assert forall|e: int, j: int|
        u.dirs.contains_key(e) && 0 <= j < u.sub_files[e].len() implies ({
        let c = #[trigger] u.file_item(e, j);
        &&& u.files.contains_key(c)
        &&& u.files[c].parent == e
        &&& u.file_pos[c] == j
    }) by {
        assert(t.dirs.contains_key(e));
        assert(t.file_item(e, j) == u.file_item(e, j));
        assert(t.files.contains_key(t.file_item(e, j)));
    }
    assert forall|e: int, j: int|
        u.dirs.contains_key(e) && 0 <= j < u.sub_dirs[e].len() implies ({
        let c = #[trigger] u.dir_item(e, j);
        &&& u.dirs.contains_key(c)
        &&& c != 1
        &&& c != d
        &&& u.dirs[c].parent == e
        &&& u.dir_pos[c] == j
    }) by {
        assert(t.dirs.contains_key(e));
        assert(t.dir_item(e, j) == u.dir_item(e, j));
        assert(t.dirs.contains_key(t.dir_item(e, j)));
    }
    assert(tree_ok(u, d));
    assert forall|e: int| #[trigger] dirs.contains_key(e) implies u.dirs.contains_key(e) && dir_row(
        u,
        e,
        dirs[e],
    ) by {
        assert(dir_row(t, e, dirs[e]));
        assert(t.dirs.contains_key(e));
        if e != 1 {
            assert(t.dirs.contains_key(t.dirs[e].parent));
        }
    }
    assert forall|f: int| #[trigger] files.contains_key(f) implies u.files.contains_key(f)
        && file_row(u, f, files[f]) by {
        assert(file_row(t, f, files[f]));
        assert(t.files.contains_key(f));
        assert(t.dirs.contains_key(t.files[f].parent));
    }
    assert forall|e: int| #[trigger] u.dirs.contains_key(e) && e != d implies dirs.contains_key(
        e,
    ) by {
        assert(t.dirs.contains_key(e));
    }
}

} // verus!
