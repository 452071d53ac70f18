use crate::error::{make_error, Error};
use crate::random_access_file::{Content, RandomAccessFile};
use crate::volume::Volume;
use crate::volume_dir::Dir;
use vstd::prelude::*;

verus! {

use crate::fs_meta::{lemma_indices_bounded, lists};
use crate::fs_tree::{dir_dropped, dir_unhooked, tree_ok, without_file, Tree};
use crate::volume::{fixed, fs_sound, kept_sound, others_same, same_handles, same_volume};
use crate::volume_dir::{few_handles, files_kept};

/// The directories from the root down to one, each in the one before.
pub open spec fn is_path(t: Tree, path: Seq<int>) -> bool {
    &&& path.len() > 0
    &&& path[0] == 1
    &&& path.no_duplicates()
    &&& forall|k: int| 0 <= k < path.len() ==> t.dirs.contains_key(#[trigger] path[k])
    &&& forall|k: int| 1 <= k < path.len() ==> t.dirs[#[trigger] path[k]].parent == path[k - 1]
}

/// The directories of a path are open, and nothing else is.
pub open spec fn open_on_path(v: Volume, path: Seq<int>) -> bool {
    &&& forall|i: u32| #[trigger]
        v.fs.dirs.handles(i) == if path.contains(i as int) {
            1int
        } else {
            0
        }
    &&& forall|i: u32| #[trigger] v.fs.files.handles(i) == 0
}

/// Nothing but directories and files that have been there is left, and they are as they were.
pub open spec fn left_over(t: Tree, u: Tree) -> bool {
    &&& forall|d: int| #[trigger]
        u.dirs.contains_key(d) ==> t.dirs.contains_key(d) && u.dirs[d] == t.dirs[d]
    &&& forall|f: int| #[trigger]
        u.files.contains_key(f) ==> t.files.contains_key(f) && u.files[f] == t.files[f]
}

/// The directories of a path are kept, and those above the last one list the same.
pub open spec fn path_kept(t: Tree, u: Tree, path: Seq<int>) -> bool {
    &&& forall|k: int| 0 <= k < path.len() ==> u.dirs.contains_key(#[trigger] path[k])
    &&& forall|k: int|
        0 <= k < path.len() - 1 ==> u.sub_dirs[#[trigger] path[k]] == t.sub_dirs[path[k]]
            && u.sub_files[path[k]] == t.sub_files[path[k]]
}

/// The sum of the values for all numbers below `n`.
pub open spec fn sum_to(n: int, g: spec_fn(int) -> int) -> int
    decreases n,
{
    if n <= 0 {
        0
    } else {
        sum_to(n - 1, g) + g(n - 1)
    }
}

/// Values that differ at most in one place.
proof fn lemma_sum_one(n: int, g: spec_fn(int) -> int, h: spec_fn(int) -> int, at: int)
    requires
        forall|i: int| 0 <= i < n && i != at ==> #[trigger] g(i) == h(i),
    ensures
        sum_to(n, g) - sum_to(n, h) == if 0 <= at < n {
            g(at) - h(at)
        } else {
            0
        },
    decreases n,
{
    if n > 0 {
        lemma_sum_one(n - 1, g, h, at);
    }
}

/// More than any number that an entry has.
pub const ENTRIES: u64 = 0x1_0000_0000;

/// The number of blocks of all files.
pub open spec fn file_blocks(v: Volume) -> int {
    sum_to(
        ENTRIES as int,
        |f: int|
            if v.tree().files.contains_key(f) {
                v.block_total(f)
            } else {
                0
            },
    )
}

/// The number of files.
pub open spec fn file_count(v: Volume) -> int {
    sum_to(
        ENTRIES as int,
        |f: int|
            if v.tree().files.contains_key(f) {
                1
            } else {
                0
            },
    )
}

/// The number of directories.
pub open spec fn dir_count(v: Volume) -> int {
    sum_to(
        ENTRIES as int,
        |d: int|
            if v.tree().dirs.contains_key(d) {
                1
            } else {
                0
            },
    )
}

/// The blocks, the files and the directories that there are or can still be.
#[verifier::opaque]
pub open spec fn capacity(v: Volume) -> (int, int, int) {
    (
        v.fat.free_count() + file_blocks(v),
        v.fs.files.room() + file_count(v),
        v.fs.dirs.room() + dir_count(v),
    )
}

proof fn lemma_capacity_same(a: Volume, b: Volume)
    requires
        same_volume(a, b),
    ensures
        capacity(b) == capacity(a),
{
    reveal(capacity);
    assert forall|f: int| b.block_total(f) == a.block_total(f) by {}
    lemma_sum_one(
        ENTRIES as int,
        |f: int|
            if b.tree().files.contains_key(f) {
                b.block_total(f)
            } else {
                0
            },
        |f: int|
            if a.tree().files.contains_key(f) {
                a.block_total(f)
            } else {
                0
            },
        -1,
    );
}

/// The blocks of a file that is deleted are free, and so is its entry.
proof fn lemma_capacity_file(a: Volume, b: Volume, f: int)
    requires
        0 <= f < ENTRIES,
        a.tree().files.contains_key(f),
        b.tree() == without_file(a.tree(), f),
        others_same(a, b, f),
        b.fat.free_count() == a.fat.free_count() + a.block_total(f),
        b.fs.files.room() == a.fs.files.room() + 1,
        b.fs.dirs.room() == a.fs.dirs.room(),
    ensures
        capacity(b) == capacity(a),
{
    reveal(capacity);
    assert forall|g: int| g != f implies #[trigger] b.block_total(g) == a.block_total(g) by {
        assert(b.chains@.contains_key(g) == a.chains@.contains_key(g));
    }
    lemma_sum_one(
        ENTRIES as int,
        |g: int|
            if b.tree().files.contains_key(g) {
                b.block_total(g)
            } else {
                0
            },
        |g: int|
            if a.tree().files.contains_key(g) {
                a.block_total(g)
            } else {
                0
            },
        f,
    );
    lemma_sum_one(
        ENTRIES as int,
        |g: int|
            if b.tree().files.contains_key(g) {
                1
            } else {
                0
            },
        |g: int|
            if a.tree().files.contains_key(g) {
                1
            } else {
                0
            },
        f,
    );
}

/// The entry of a directory that is deleted is free.
proof fn lemma_capacity_dir(a: Volume, b: Volume, d: int)
    requires
        0 <= d < ENTRIES,
        a.tree().dirs.contains_key(d),
        b.tree() == dir_dropped(dir_unhooked(a.tree(), d), d),
        files_kept(a, b),
        b.fs.dirs.room() == a.fs.dirs.room() + 1,
    ensures
        capacity(b) == capacity(a),
{
    reveal(capacity);
    lemma_sum_one(
        ENTRIES as int,
        |f: int|
            if b.tree().files.contains_key(f) {
                b.block_total(f)
            } else {
                0
            },
        |f: int|
            if a.tree().files.contains_key(f) {
                a.block_total(f)
            } else {
                0
            },
        -1,
    );
    lemma_sum_one(
        ENTRIES as int,
        |g: int|
            if b.tree().dirs.contains_key(g) {
                1
            } else {
                0
            },
        |g: int|
            if a.tree().dirs.contains_key(g) {
                1
            } else {
                0
            },
        d,
    );
}

/// A directory in the last one of a path is not itself on the path.
proof fn lemma_deeper(t: Tree, path: Seq<int>, c: int)
    requires
        tree_ok(t, 0),
        is_path(t, path),
        t.dirs.contains_key(c),
        c != 1,
        t.dirs[c].parent == path.last(),
    ensures
        !path.contains(c),
        is_path(t, path.push(c)),
{
    let q = path.push(c);
    if path.contains(c) {
        let k = choose|k: int| 0 <= k < path.len() && path[k] == c;
        assert(path[k - 1] == path[path.len() - 1]);
    }
    assert forall|k: int| 1 <= k < q.len() implies t.dirs[#[trigger] q[k]].parent == q[k - 1] by {
        if k < path.len() {
            assert(q[k] == path[k]);
        }
    }
}

/// A path is shorter than the table of directories.
proof fn lemma_path_len(v: Volume, path: Seq<int>)
    requires
        v.framed(),
        is_path(v.tree(), path),
    ensures
        path.len() < v.fs.dirs.table.bytes().len(),
{
    reveal(fs_sound);
    lemma_indices_bounded(v.fs.dirs, path);
    let n = v.fs.dirs.table.bytes().len() as int;
    let l = v.fs.dirs.key_len + v.fs.dirs.info_len + 4;
    assert(n / l <= n) by (nonlinear_arith)
        requires
            n >= 0,
            l >= 1,
    ;
}

proof fn lemma_tree_ok(v: Volume)
    requires
        v.framed(),
    ensures
        tree_ok(v.tree(), 0),
{
    reveal(fs_sound);
}

/// A directory can be cleared: it is at the end of a path that is open.
pub open spec fn clearable(v: Volume, path: Seq<int>, d: int, depth: int) -> bool {
    &&& v.sound()
    &&& is_path(v.tree(), path)
    &&& path.last() == d
    &&& open_on_path(v, path)
    &&& path.len() + depth > v.fs.dirs.table.bytes().len()
}

/// Deletes everything in a directory.
#[verifier::rlimit(60)]
fn clear_dir(vol: &mut Volume, dir: &Dir, depth: usize, Ghost(path): Ghost<Seq<int>>) -> (r: Result<
    (),
    Error,
>)
    requires
        old(vol).inv(),
    ensures
        final(vol).inv(),
        fixed(*old(vol), *final(vol)),
        clearable(*old(vol), path, dir.ino(), depth as int) ==> {
            &&& r == Ok::<(), Error>(())
            &&& final(vol).sound()
            &&& open_on_path(*final(vol), path)
            &&& left_over(old(vol).tree(), final(vol).tree())
            &&& path_kept(old(vol).tree(), final(vol).tree(), path)
            &&& final(vol).tree().sub_dirs[dir.ino()].len() == 0
            &&& final(vol).tree().sub_files[dir.ino()].len() == 0
            &&& capacity(*final(vol)) == capacity(*old(vol))
        },
    decreases depth,
{
    let ghost a = *vol;
    let ghost d = dir.ino();
    let ghost good = clearable(a, path, d, depth as int);
    let dirs = match dir.list_sub_dir(vol) {
        Ok(v) => v,
        Err(e) => {
            proof {
                assert(good ==> a.tree().dirs.contains_key(path[path.len() - 1]));
            }
            return make_error(e);
        },
    };
    let ghost l = a.tree().sub_dirs[d];
    proof {
        if good {
            assert(a.tree().dirs.contains_key(path[path.len() - 1]));
            assert(l.take(l.len() as int) =~= l);
            lemma_capacity_same(a, *vol);
        }
    }
    let n: usize = dirs.len();
    let mut k: usize = 0;
    while k < n
        invariant
            k <= n == dirs@.len(),
            vol.inv(),
            a == *old(vol),
            fixed(a, *vol),
            d == dir.ino(),
            good == clearable(a, path, d, depth as int),
            l == a.tree().sub_dirs[d],
            good ==> {
                &&& is_path(a.tree(), path)
                &&& path.last() == d
                &&& path.len() + depth > a.fs.dirs.table.bytes().len()
                &&& lists(dirs@, a.tree().dirs, l)
                &&& vol.sound()
                &&& open_on_path(*vol, path)
                &&& left_over(a.tree(), vol.tree())
                &&& path_kept(a.tree(), vol.tree(), path)
                &&& vol.tree().sub_dirs[d] == l.take(n - k)
                &&& capacity(*vol) == capacity(a)
            },
        decreases n - k,
    {
        let ghost b = *vol;
        let c: u32 = dirs[k].1;
        if depth == 0 {
            proof {
                if good {
                    lemma_kept_path(a.tree(), b.tree(), path);
                    lemma_path_len(b, path);
                }
            }
            return make_error(Error::InvalidValue);
        }
        let ghost q = path.push(c as int);
        proof {
            if good {
                let t = b.tree();
                lemma_tree_ok(b);
                lemma_kept_path(a.tree(), t, path);
                lemma_path_len(b, path);
                assert(t.dirs.contains_key(path[path.len() - 1]));
                assert(dirs@[k as int].1 == l[n - 1 - k]);
                assert(t.dir_item(d, n - 1 - k) == c);
                lemma_deeper(t, path, c as int);
            }
        }
        let sub = match vol.open_dir(c) {
            Ok(s) => s,
            Err(e) => {
                return make_error(e);
            },
        };
        let ghost o = *vol;
        proof {
            if good {
                assert forall|i: u32| #[trigger]
                    o.fs.dirs.handles(i) == if q.contains(i as int) {
                        1int
                    } else {
                        0
                    } by {
                    lemma_push_contains(path, c as int, i as int);
                    assert(b.fs.dirs.handles(i) == if path.contains(i as int) {
                        1int
                    } else {
                        0
                    });
                }
                assert forall|i: u32| #[trigger] o.fs.files.handles(i) == 0 by {
                    assert(b.fs.files.handles(i) == 0);
                }
                assert(open_on_path(o, q));
                lemma_capacity_same(b, o);
                assert(q.last() == sub.ino());
            }
        }
        if let Err(e) = clear_dir(vol, &sub, depth - 1, Ghost(q)) {
            return make_error(e);
        }
        let ghost m = *vol;
        proof {
            if good {
                lemma_push_contains(path, c as int, c as int);
                assert(m.fs.dirs.handles(c) == 1);
                assert(q[q.len() - 1] == c);
                assert(m.tree().dirs.contains_key(q[q.len() - 1]));
            }
        }
        if let Err(e) = sub.delete(vol) {
            return make_error(e);
        }
        proof {
            if good {
                lemma_after_dir(a, b, m, *vol, path, c, l, n - k);
                lemma_capacity_dir(m, *vol, c as int);
            }
        }
        k = k + 1;
    }
    let ghost b = *vol;
    proof {
        if good {
            lemma_kept_path(a.tree(), b.tree(), path);
            assert(b.tree().dirs.contains_key(path[path.len() - 1]));
            assert(l.take(0).len() == 0);
        }
    }
    let files = match dir.list_sub_file(vol) {
        Ok(v) => v,
        Err(e) => {
            return make_error(e);
        },
    };
    let ghost g = b.tree().sub_files[d];
    let n: usize = files.len();
    let mut k: usize = 0;
    proof {
        if good {
            assert(g.take(g.len() as int) =~= g);
            lemma_capacity_same(b, *vol);
            assert forall|i: u32| #[trigger] vol.fs.dirs.handles(i) == if path.contains(i as int) {
                1int
            } else {
                0
            } by {
                assert(b.fs.dirs.handles(i) == if path.contains(i as int) {
                    1int
                } else {
                    0
                });
            }
            assert forall|i: u32| #[trigger] vol.fs.files.handles(i) == 0 by {
                assert(b.fs.files.handles(i) == 0);
            }
        }
    }
    while k < n
        invariant
            k <= n == files@.len(),
            vol.inv(),
            a == *old(vol),
            fixed(a, *vol),
            d == dir.ino(),
            good == clearable(a, path, d, depth as int),
            good ==> {
                &&& is_path(a.tree(), path)
                &&& path.last() == d
                &&& lists(files@, b.tree().files, g)
                &&& vol.sound()
                &&& open_on_path(*vol, path)
                &&& left_over(a.tree(), vol.tree())
                &&& path_kept(a.tree(), vol.tree(), path)
                &&& vol.tree().sub_dirs[d].len() == 0
                &&& vol.tree().sub_files[d] == g.take(n - k)
                &&& capacity(*vol) == capacity(a)
            },
        decreases n - k,
    {
        let ghost b1 = *vol;
        let f: u32 = files[k].1;
        proof {
            if good {
                let t = b1.tree();
                lemma_tree_ok(b1);
                assert(t.dirs.contains_key(path[path.len() - 1]));
                assert(files@[k as int].1 == g[n - 1 - k]);
                assert(t.file_item(d, n - 1 - k) == f);
            }
        }
        let file = match vol.open_file(f) {
            Ok(x) => x,
            Err(e) => {
                return make_error(e);
            },
        };
        let ghost o = *vol;
        proof {
            if good {
                assert(b1.fs.files.handles(f) == 0);
                assert(o.fs.files.handles(f) == 1);
                lemma_capacity_same(b1, o);
            }
        }
        if let Err(e) = file.delete(vol) {
            return make_error(e);
        }
        proof {
            if good {
                lemma_after_file(a, b1, o, *vol, path, f, g, n - k);
                lemma_capacity_file(o, *vol, f as int);
            }
        }
        k = k + 1;
    }
    proof {
        if good {
            assert(g.take(0).len() == 0);
        }
    }
    Ok(())
}

/// A path stays one where its directories are kept.
proof fn lemma_kept_path(t: Tree, u: Tree, path: Seq<int>)
    requires
        is_path(t, path),
        left_over(t, u),
        path_kept(t, u, path),
    ensures
        is_path(u, path),
{
    assert forall|k: int| 1 <= k < path.len() implies u.dirs[#[trigger] path[k]].parent == path[k
        - 1] by {
        assert(u.dirs.contains_key(path[k]));
    }
}

proof fn lemma_push_contains(path: Seq<int>, c: int, i: int)
    ensures
        path.push(c).contains(i) == (path.contains(i) || i == c),
{
    let q = path.push(c);
    if path.contains(i) {
        let k = choose|k: int| 0 <= k < path.len() && path[k] == i;
        assert(q[k] == i);
    }
    if i == c {
        assert(q[path.len() as int] == i);
    }
}

/// What is left when a directory has been cleared and deleted.
proof fn lemma_after_dir(
    a: Volume,
    b: Volume,
    m: Volume,
    v: Volume,
    path: Seq<int>,
    c: u32,
    l: Seq<int>,
    n: int,
)
    requires
        0 < n <= l.len(),
        l[n - 1] == c,
        is_path(a.tree(), path),
        is_path(b.tree(), path.push(c as int)),
        b.tree().sub_dirs[path.last()] == l.take(n),
        left_over(a.tree(), b.tree()),
        path_kept(a.tree(), b.tree(), path),
        m.sound(),
        left_over(b.tree(), m.tree()),
        path_kept(b.tree(), m.tree(), path.push(c as int)),
        open_on_path(m, path.push(c as int)),
        v.framed(),
        v.tree() == dir_dropped(dir_unhooked(m.tree(), c as int), c as int),
        crate::volume::dir_closed(m, v, c),
    ensures
        open_on_path(v, path),
        left_over(a.tree(), v.tree()),
        path_kept(a.tree(), v.tree(), path),
        v.tree().sub_dirs[path.last()] == l.take(n - 1),
{
    let q = path.push(c as int);
    let d = path.last();
    let t = m.tree();
    let u = v.tree();
    lemma_tree_ok(m);
    assert(q[q.len() - 1] == c && q[q.len() - 2] == d);
    assert(t.dirs.contains_key(q[q.len() - 1]));
    assert(b.tree().dirs[q[q.len() - 1]].parent == q[q.len() - 2]);
    assert(t.dirs[c as int].parent == d);
    assert(t.sub_dirs[q[q.len() - 2]] == b.tree().sub_dirs[d]);
    assert(t.dirs.contains_key(q[q.len() - 2]));
    assert(t.dir_item(d, n - 1) == c);
    assert(t.dir_pos[c as int] == n - 1);
    assert(l.take(n).remove(n - 1) =~= l.take(n - 1));
    assert forall|k: int| 0 <= k < path.len() implies u.dirs.contains_key(#[trigger] path[k]) by {
        assert(q[k] == path[k]);
        assert(t.dirs.contains_key(q[k]));
        assert(q[k] != q[q.len() - 1]);
    }
    assert forall|k: int| 0 <= k < path.len() - 1 implies u.sub_dirs[#[trigger] path[k]]
        == a.tree().sub_dirs[path[k]] && u.sub_files[path[k]] == a.tree().sub_files[path[k]] by {
        assert(q[k] == path[k]);
        assert(path[k] != path[path.len() - 1]);
    }
    assert forall|i: u32| #[trigger] v.fs.dirs.handles(i) == if path.contains(i as int) {
        1int
    } else {
        0
    } by {
        lemma_push_contains(path, c as int, i as int);
        assert(m.fs.dirs.handles(i) == if q.contains(i as int) {
            1int
        } else {
            0
        });
        if path.contains(c as int) {
            let k = choose|k: int| 0 <= k < path.len() && path[k] == c;
            assert(q[k] == q[q.len() - 1]);
        }
    }
    assert forall|i: u32| #[trigger] v.fs.files.handles(i) == 0 by {
        assert(m.fs.files.handles(i) == 0);
    }
}

/// What is left when a file has been deleted.
proof fn lemma_after_file(
    a: Volume,
    b: Volume,
    o: Volume,
    v: Volume,
    path: Seq<int>,
    f: u32,
    g: Seq<int>,
    n: int,
)
    requires
        0 < n <= g.len(),
        g[n - 1] == f,
        is_path(a.tree(), path),
        b.framed(),
        b.tree().dirs.contains_key(path.last()),
        b.tree().sub_dirs[path.last()].len() == 0,
        b.tree().sub_files[path.last()] == g.take(n),
        left_over(a.tree(), b.tree()),
        path_kept(a.tree(), b.tree(), path),
        open_on_path(b, path),
        o.tree() == b.tree(),
        crate::volume::file_opened(b, o, f),
        v.framed(),
        v.tree() == without_file(b.tree(), f as int),
        crate::volume::file_closed(o, v, f),
    ensures
        open_on_path(v, path),
        left_over(a.tree(), v.tree()),
        path_kept(a.tree(), v.tree(), path),
        v.tree().sub_dirs[path.last()].len() == 0,
        v.tree().sub_files[path.last()] == g.take(n - 1),
{
    let d = path.last();
    let t = b.tree();
    let u = v.tree();
    lemma_tree_ok(b);
    assert(t.file_item(d, n - 1) == f);
    assert(t.file_pos[f as int] == n - 1);
    assert(g.take(n).remove(n - 1) =~= g.take(n - 1));
    assert forall|k: int| 0 <= k < path.len() - 1 implies u.sub_dirs[#[trigger] path[k]]
        == a.tree().sub_dirs[path[k]] && u.sub_files[path[k]] == a.tree().sub_files[path[k]] by {
        assert(path[k] != path[path.len() - 1]);
    }
    assert forall|i: u32| #[trigger] v.fs.dirs.handles(i) == if path.contains(i as int) {
        1int
    } else {
        0
    } by {
        assert(o.fs.dirs.handles(i) == b.fs.dirs.handles(i));
    }
    assert forall|i: u32| #[trigger] v.fs.files.handles(i) == 0 by {
        assert(b.fs.files.handles(i) == 0);
        assert(b.fs.files.handles(f) == 0);
    }
}

/// Directory `d` is `n` levels below the root.
pub open spec fn below_root(t: Tree, d: int, n: nat) -> bool
    decreases n,
{
    if n == 0 {
        d == 1
    } else {
        t.dirs.contains_key(d) && d != 1 && below_root(t, t.dirs[d].parent, (n - 1) as nat)
    }
}

/// Everything below the root is gone, and the root is as it was.
pub open spec fn cleared(t: Tree, u: Tree) -> bool {
    &&& left_over(t, u)
    &&& u.dirs.contains_key(1)
    &&& u.sub_dirs[1].len() == 0
    &&& u.sub_files[1].len() == 0
    &&& forall|d: int, n: nat| n > 0 && #[trigger] below_root(t, d, n) ==> !u.dirs.contains_key(d)
    &&& forall|f: int, n: nat|
        t.files.contains_key(f) && #[trigger] below_root(t, t.files[f].parent, n)
            ==> !u.files.contains_key(f)
}

/// Nothing is open.
pub open spec fn idle(v: Volume) -> bool {
    &&& forall|i: u32| #[trigger] v.fs.dirs.handles(i) == 0
    &&& forall|i: u32| #[trigger] v.fs.files.handles(i) == 0
}

/// Nothing is left below a root that lists nothing.
proof fn lemma_none_below(t: Tree, u: Tree, d: int, n: nat)
    requires
        tree_ok(u, 0),
        left_over(t, u),
        u.sub_dirs[1].len() == 0,
        n > 0,
        below_root(t, d, n),
    ensures
        !u.dirs.contains_key(d),
    decreases n,
{
    if u.dirs.contains_key(d) {
        let p = u.dirs[d].parent;
        assert(u.dirs.contains_key(p));
        if n > 1 {
            lemma_none_below(t, u, p, (n - 1) as nat);
        } else {
            assert(below_root(t, p, 0));
        }
    }
}

/// Deletes all files and directories.
pub fn clear(vol: &mut Volume) -> (r: Result<(), Error>)
    requires
        old(vol).inv(),
    ensures
        final(vol).inv(),
        fixed(*old(vol), *final(vol)),
        old(vol).sound() && idle(*old(vol)) ==> {
            &&& r == Ok::<(), Error>(())
            &&& final(vol).sound()
            &&& idle(*final(vol))
            &&& cleared(old(vol).tree(), final(vol).tree())
            &&& capacity(*final(vol)) == capacity(*old(vol))
        },
{
    let ghost a = *vol;
    let ghost path = seq![1int];
    let ghost good = a.sound() && idle(a);
    let root = match vol.open_root() {
        Ok(d) => d,
        Err(e) => {
            return make_error(e);
        },
    };
    let ghost b = *vol;
    let depth: usize = vol.fs.dirs.table.len();
    proof {
        if good {
            lemma_tree_ok(b);
            assert forall|i: u32| #[trigger] b.fs.dirs.handles(i) == if path.contains(i as int) {
                1int
            } else {
                0
            } by {
                assert(a.fs.dirs.handles(i) == 0);
                assert(path[0] == 1);
            }
            assert forall|i: u32| #[trigger] b.fs.files.handles(i) == 0 by {
                assert(a.fs.files.handles(i) == 0);
            }
            assert(clearable(b, path, 1, depth as int));
            lemma_capacity_same(a, b);
        }
    }
    let r = clear_dir(vol, &root, depth, Ghost(path));
    let ghost c = *vol;
    root.close(vol);
    proof {
        if good {
            lemma_capacity_same(c, *vol);
            lemma_tree_ok(c);
            assert(c.tree().dirs.contains_key(path[0]));
            assert forall|d: int, n: nat|
                n > 0 && #[trigger] below_root(a.tree(), d, n) implies !c.tree().dirs.contains_key(
                d,
            ) by {
                lemma_none_below(a.tree(), c.tree(), d, n);
            }
            assert forall|f: int, n: nat|
                a.tree().files.contains_key(f) && #[trigger] below_root(
                    a.tree(),
                    a.tree().files[f].parent,
                    n,
                ) implies !c.tree().files.contains_key(f) by {
                if c.tree().files.contains_key(f) && n > 0 {
                    lemma_none_below(a.tree(), c.tree(), a.tree().files[f].parent, n);
                }
            }
            assert forall|i: u32| #[trigger] vol.fs.dirs.handles(i) == 0 by {
                assert(path[0] == 1);
                assert(c.fs.dirs.handles(i) == if path.contains(i as int) {
                    1int
                } else {
                    0
                });
            }
            assert forall|i: u32| #[trigger] vol.fs.files.handles(i) == 0 by {
                assert(c.fs.files.handles(i) == 0);
            }
        }
    }
    r
}

/// A directory at the end of a path is below the root.
proof fn lemma_path_below(t: Tree, path: Seq<int>)
    requires
        is_path(t, path),
    ensures
        below_root(t, path.last(), (path.len() - 1) as nat),
    decreases path.len(),
{
    let n = path.len() - 1;
    if n > 0 {
        let q = path.drop_last();
        assert forall|k: int| 0 <= k < q.len() implies t.dirs.contains_key(#[trigger] q[k]) by {
            assert(q[k] == path[k]);
        }
        assert forall|k: int| 1 <= k < q.len() implies t.dirs[#[trigger] q[k]].parent == q[k
            - 1] by {
            assert(q[k] == path[k]);
            assert(q[k - 1] == path[k - 1]);
        }
        lemma_path_below(t, q);
        assert(t.dirs.contains_key(path[n]));
        assert(t.dirs[path[n]].parent == path[n - 1]);
        assert(path[n] != path[0]);
    }
}

/// What is to be deleted next so that nothing is left below the root: a directory that lists
/// nothing, or a file. Where the root lists nothing, nothing is left.
pub open spec fn next_gives(t: Tree, r: Option<(u32, bool)>) -> bool {
    match r {
        None => t.sub_dirs[1].len() == 0 && t.sub_files[1].len() == 0,
        Some((i, is_dir)) => if is_dir {
            &&& t.dirs.contains_key(i as int)
            &&& t.sub_dirs[i as int].len() == 0
            &&& t.sub_files[i as int].len() == 0
            &&& exists|n: nat| n > 0 && #[trigger] below_root(t, i as int, n)
        } else {
            &&& t.files.contains_key(i as int)
            &&& exists|n: nat| #[trigger] below_root(t, t.files[i as int].parent, n)
        },
    }
}

/// A file below the root is one to be deleted next.
proof fn lemma_next_file(t: Tree, f: u32, n: nat)
    requires
        t.files.contains_key(f as int),
        below_root(t, t.files[f as int].parent, n),
    ensures
        next_gives(t, Some((f, false))),
{
}

/// A directory below the root that lists nothing is one to be deleted next.
proof fn lemma_next_dir(t: Tree, d: u32, n: nat)
    requires
        t.dirs.contains_key(d as int),
        t.sub_dirs[d as int].len() == 0,
        t.sub_files[d as int].len() == 0,
        n > 0,
        below_root(t, d as int, n),
    ensures
        next_gives(t, Some((d, true))),
{
}

/// Finds what is to be deleted next to clear a volume whose files the host keeps: a directory or a
/// file, by its number. One that lists nothing is found before the one that it is in.
pub fn next_to_clear(vol: &mut Volume) -> (r: Result<Option<(u32, bool)>, Error>)
    requires
        old(vol).inv(),
    ensures
        final(vol).inv(),
        same_volume(*old(vol), *final(vol)),
        few_handles(*old(vol)) ==> same_handles(*old(vol), *final(vol)),
        old(vol).framed() ==> kept_sound(*old(vol), *final(vol)) && (r matches Ok(x) && next_gives(
            old(vol).tree(),
            x,
        )),
{
    let ghost a = *vol;
    let ghost t = a.tree();
    let ghost mut path = seq![1int];
    let mut ino: u32 = 1;
    let mut depth: usize = vol.fs.dirs.table.len();
    proof {
        if a.framed() {
            lemma_tree_ok(a);
        }
    }
    loop
        invariant
            vol.inv(),
            a == *old(vol),
            t == a.tree(),
            same_volume(a, *vol),
            few_handles(a) ==> same_handles(a, *vol),
            a.framed() ==> {
                &&& kept_sound(a, *vol)
                &&& is_path(t, path)
                &&& path.last() == ino
                &&& path.len() + depth > a.fs.dirs.table.bytes().len()
            },
        decreases depth,
    {
        let ghost v0 = *vol;
        let dir = match vol.open_dir(ino) {
            Ok(d) => d,
            Err(e) => {
                return make_error(e);
            },
        };
        let ghost v1 = *vol;
        let dirs = dir.list_sub_dir(vol);
        let ghost v2 = *vol;
        let files = dir.list_sub_file(vol);
        let ghost v3 = *vol;
        dir.close(vol);
        proof {
            if a.framed() {
                assert(t.dirs.contains_key(path[path.len() - 1]));
                lemma_path_len(a, path);
                lemma_path_below(t, path);
            }
            if few_handles(a) {
                assert forall|i: u32| #[trigger] vol.fs.dirs.handles(i) == a.fs.dirs.handles(
                    i,
                ) by {
                    assert(v0.fs.dirs.handles(i) == a.fs.dirs.handles(i));
                    assert(v2.fs.dirs.handles(i) == v1.fs.dirs.handles(i));
                    assert(v3.fs.dirs.handles(i) == v2.fs.dirs.handles(i));
                }
                assert forall|i: u32| #[trigger] vol.fs.files.handles(i) == a.fs.files.handles(
                    i,
                ) by {
                    assert(v0.fs.files.handles(i) == a.fs.files.handles(i));
                    assert(v2.fs.files.handles(i) == v1.fs.files.handles(i));
                    assert(v3.fs.files.handles(i) == v2.fs.files.handles(i));
                }
            }
        }
        let (dirs, files) = match (dirs, files) {
            (Ok(d), Ok(f)) => (d, f),
            (Err(e), _) => {
                return make_error(e);
            },
            (_, Err(e)) => {
                return make_error(e);
            },
        };
        if dirs.len() == 0 {
            if files.len() > 0 {
                let file: u32 = files[0].1;
                proof {
                    if a.framed() {
                        lemma_tree_ok(a);
                        let l = t.sub_files[ino as int];
                        assert(files@[0].1 == l[l.len() - 1]);
                        assert(t.file_item(ino as int, l.len() - 1) == file);
                        assert(t.files[file as int].parent == ino);
                        lemma_next_file(t, file, (path.len() - 1) as nat);
                    }
                }
                return Ok(Some((file, false)));
            }
            if ino == 1 {
                return Ok(None);
            }
            proof {
                if a.framed() {
                    lemma_next_dir(t, ino, (path.len() - 1) as nat);
                }
            }
            return Ok(Some((ino, true)));
        }
        if depth == 0 {
            return make_error(Error::InvalidValue);
        }
        let next: u32 = dirs[0].1;
        proof {
            if a.framed() {
                lemma_tree_ok(a);
                let l = t.sub_dirs[ino as int];
                assert(dirs@[0].1 == l[l.len() - 1]);
                assert(t.dir_item(ino as int, l.len() - 1) == next);
                lemma_deeper(t, path, next as int);
            }
            path = path.push(next as int);
        }
        ino = next;
        depth = depth - 1;
    }
}

} // verus!
