use crate::difi_partition::DifiPartition;
use crate::fat::Fat;
use crate::fs_meta::FsMeta;
use crate::meta_table::MetaTable;
use crate::random_access_file::Content;
use crate::volume::Volume;
use crate::volume_store::{Source, Store};
use vstd::prelude::*;

verus! {

use crate::fat::{lemma_block_of, place};
use crate::fat_list::{block_count, chain, free_list, linked, node_of, Span};
use crate::fat_table::{node_read, Node as FatNode};
use crate::error::Error;
use crate::fs_tree::{below, dir_row, file_row, lemma_key_of, top, tree_stored, Row, Tree};
use crate::little_endian::le32;
use crate::meta_list::{entries, listed, live, room, Lists, Meta};
use crate::volume::{fat_sound, fs_sound, lemma_list};
use crate::volume_more::{lemma_fat_more, lemma_volume_more, more, more_to};
use crate::shadow::cell;
use crate::volume_store::{
    files_as_before, holds, holds_sound, lemma_pieces_more, lemma_table_more, mounted, shown_as,
    shown_at, table_len, told, Pieces,
};

/// A list is known by its first item and the links between its items.
proof fn lemma_links(l: Seq<int>, m: Seq<int>, link: spec_fn(int) -> int)
    requires
        top(l) == top(m),
        forall|i: int| 0 <= i < l.len() ==> (#[trigger] l[i]) >= 1 && link(l[i]) == below(l, i),
        forall|i: int| 0 <= i < m.len() ==> (#[trigger] m[i]) >= 1 && link(m[i]) == below(m, i),
    ensures
        l == m,
    decreases l.len(),
{
    if l.len() == 0 {
        if m.len() > 0 {
            assert(m[m.len() - 1] >= 1);
        }
        assert(l =~= m);
    } else {
        assert(l[l.len() - 1] >= 1);
        if m.len() > 0 {
            let a = l.drop_last();
            let b = m.drop_last();
            assert(l[l.len() - 1] == m[m.len() - 1]);
            assert(top(a) == below(l, l.len() - 1));
            assert(top(b) == below(m, m.len() - 1));
            assert forall|i: int| 0 <= i < a.len() implies (#[trigger] a[i]) >= 1 && link(a[i])
                == below(a, i) by {
                assert(a[i] == l[i]);
                assert(below(a, i) == below(l, i));
            }
            assert forall|i: int| 0 <= i < b.len() implies (#[trigger] b[i]) >= 1 && link(b[i])
                == below(b, i) by {
                assert(b[i] == m[i]);
                assert(below(b, i) == below(m, i));
            }
            lemma_links(a, b, link);
            assert(l =~= a.push(l.last()));
            assert(m =~= b.push(m.last()));
        }
    }
}

/// A stored table has one set of entries in use.
proof fn lemma_entries_one(m: Meta, g: Lists, h: Lists)
    requires
        listed(m, g),
        listed(m, h),
    ensures
        entries(m, g) == entries(m, h),
        room(m, g) == room(m, h),
{
    let link = |e: int| m.link(e) as int;
    assert forall|b: int| 0 <= b < g.lists.len() implies #[trigger] g.lists[b] == h.lists[b] by {
        let l = g.lists[b];
        let k = h.lists[b];
        assert(m.head(b) == g.top(b) && m.head(b) == h.top(b));
        assert forall|i: int| 0 <= i < l.len() implies (#[trigger] l[i]) >= 1 && link(l[i])
            == below(l, i) by {
            let e = g.item(b, i);
        }
        assert forall|i: int| 0 <= i < k.len() implies (#[trigger] k[i]) >= 1 && link(k[i])
            == below(k, i) by {
            let e = h.item(b, i);
        }
        lemma_links(l, k, link);
    }
    assert forall|e: int| live(m, g, e) == live(m, h, e) by {
        if 1 <= e < m.count() {
            let p = g.pos[e];
            assert(g.item(p.0, p.1) == e);
            assert(g.lists[p.0] == h.lists[p.0]);
            assert(h.item(p.0, p.1) == e);
            assert(h.pos[e] == (p.0, p.1));
        }
    }
    assert(entries(m, g) =~= entries(m, h));
}

/// Two trees hold the same files and directories, and list them alike.
pub open spec fn trees_same(t: Tree, u: Tree) -> bool {
    &&& t.dirs == u.dirs
    &&& t.files == u.files
    &&& forall|d: int| #[trigger]
        t.dirs.contains_key(d) ==> t.sub_dirs[d] == u.sub_dirs[d] && t.sub_files[d]
            == u.sub_files[d]
}

/// Tables hold one tree.
proof fn lemma_tree_one(dirs: Map<int, Row>, files: Map<int, Row>, t: Tree, u: Tree)
    requires
        tree_stored(dirs, files, t, 0),
        tree_stored(dirs, files, u, 0),
    ensures
        trees_same(t, u),
{
    assert forall|d: int| #[trigger] t.dirs.contains_key(d) == u.dirs.contains_key(d) by {
        assert(t.dirs.contains_key(d) ==> dirs.contains_key(d));
        assert(u.dirs.contains_key(d) ==> dirs.contains_key(d));
    }
    assert forall|d: int| #[trigger] t.dirs.contains_key(d) implies t.dirs[d] == u.dirs[d] by {
        assert(dirs.contains_key(d));
        assert(dir_row(t, d, dirs[d]) && dir_row(u, d, dirs[d]));
        assert(u.dirs.contains_key(d));
        if d != 1 {
            assert(t.dirs.contains_key(t.dirs[d].parent));
            assert(u.dirs.contains_key(u.dirs[d].parent));
        }
        lemma_key_of(t.dirs[d].parent, t.dirs[d].name);
        lemma_key_of(u.dirs[d].parent, u.dirs[d].name);
    }
    assert(t.dirs =~= u.dirs);
    assert forall|f: int| #[trigger] t.files.contains_key(f) == u.files.contains_key(f) by {
        assert(t.files.contains_key(f) ==> files.contains_key(f));
        assert(u.files.contains_key(f) ==> files.contains_key(f));
    }
    assert forall|f: int| #[trigger] t.files.contains_key(f) implies t.files[f] == u.files[f] by {
        assert(files.contains_key(f));
        assert(file_row(t, f, files[f]) && file_row(u, f, files[f]));
        assert(u.files.contains_key(f));
        assert(t.dirs.contains_key(t.files[f].parent));
        assert(u.dirs.contains_key(u.files[f].parent));
        lemma_key_of(t.files[f].parent, t.files[f].name);
        lemma_key_of(u.files[f].parent, u.files[f].name);
    }
    assert(t.files =~= u.files);
    assert forall|d: int| #[trigger] t.dirs.contains_key(d) implies t.sub_dirs[d] == u.sub_dirs[d]
        && t.sub_files[d] == u.sub_files[d] by {
        assert(u.dirs.contains_key(d));
        assert(dirs.contains_key(d));
        assert(dir_row(t, d, dirs[d]) && dir_row(u, d, dirs[d]));
        lemma_sub_links(dirs, files, t, d);
        lemma_sub_links(dirs, files, u, d);
        lemma_links(t.sub_dirs[d], u.sub_dirs[d], |c: int| le32(dirs[c].1, 0) as int);
        lemma_links(t.sub_files[d], u.sub_files[d], |c: int| le32(files[c].1, 0) as int);
    }
}

/// The lists of a directory are linked by the entries.
proof fn lemma_sub_links(dirs: Map<int, Row>, files: Map<int, Row>, t: Tree, d: int)
    requires
        tree_stored(dirs, files, t, 0),
        t.dirs.contains_key(d),
    ensures
        forall|i: int|
            0 <= i < t.sub_dirs[d].len() ==> (#[trigger] t.sub_dirs[d][i]) >= 1 && le32(
                dirs[t.sub_dirs[d][i]].1,
                0,
            ) == below(t.sub_dirs[d], i),
        forall|i: int|
            0 <= i < t.sub_files[d].len() ==> (#[trigger] t.sub_files[d][i]) >= 1 && le32(
                files[t.sub_files[d][i]].1,
                0,
            ) == below(t.sub_files[d], i),
{
    assert forall|i: int| 0 <= i < t.sub_dirs[d].len() implies (#[trigger] t.sub_dirs[d][i]) >= 1
        && le32(dirs[t.sub_dirs[d][i]].1, 0) == below(t.sub_dirs[d], i) by {
        let c = t.dir_item(d, i);
        assert(t.dirs.contains_key(c));
        assert(dirs.contains_key(c));
        assert(dir_row(t, c, dirs[c]));
    }
    assert forall|i: int| 0 <= i < t.sub_files[d].len() implies (#[trigger] t.sub_files[d][i]) >= 1
        && le32(files[t.sub_files[d][i]].1, 0) == below(t.sub_files[d], i) by {
        let c = t.file_item(d, i);
        assert(t.files.contains_key(c));
        assert(files.contains_key(c));
        assert(file_row(t, c, files[c]));
    }
}

/// Lists of blocks that begin alike go on alike.
proof fn lemma_chain_prefix<T: Content>(t: T, c: Seq<Span>, d: Seq<Span>, k: int)
    requires
        linked(t, c),
        linked(t, d),
        c.len() > 0,
        d.len() > 0,
        c[0].start == d[0].start,
        0 <= k < c.len(),
    ensures
        k < d.len(),
        c[k] == d[k],
        (k == c.len() - 1) == (k == d.len() - 1),
    decreases k,
{
    if k > 0 {
        lemma_chain_prefix(t, c, d, k - 1);
        let a = node_of(c, k - 1);
        let b = node_of(d, k - 1);
        assert(node_read(t, c[k - 1].start as int) == Ok::<FatNode, Error>(a));
        assert(node_read(t, d[k - 1].start as int) == Ok::<FatNode, Error>(b));
        assert(a == b);
        assert(c[k].start == d[k].start);
    }
    let a = node_of(c, k);
    let b = node_of(d, k);
    assert(node_read(t, c[k].start as int) == Ok::<FatNode, Error>(a));
    assert(node_read(t, d[k].start as int) == Ok::<FatNode, Error>(b));
    assert(a == b);
}

/// A table of blocks has one list from a block on.
proof fn lemma_chain_one<T: Content>(t: T, c: Seq<Span>, d: Seq<Span>)
    requires
        chain(t, c),
        chain(t, d),
        c.len() > 0,
        d.len() > 0,
        c[0].start == d[0].start,
    ensures
        c == d,
{
    lemma_chain_prefix(t, c, d, c.len() - 1);
    assert forall|k: int| 0 <= k < c.len() implies c[k] == d[k] by {
        lemma_chain_prefix(t, c, d, k);
    }
    assert(c =~= d);
}

/// The volumes are as large, and as much of them is in use.
pub open spec fn counts_same(v: Volume, w: Volume) -> bool {
    &&& w.block_len() == v.block_len()
    &&& block_count(w.fat.table) == block_count(v.fat.table)
    &&& w.fat.free_count() == v.fat.free_count()
    &&& w.fs.files.room() == v.fs.files.room()
    &&& w.fs.dirs.room() == v.fs.dirs.room()
    &&& w.fs.files.model().max() == v.fs.files.model().max()
    &&& w.fs.dirs.model().max() == v.fs.dirs.model().max()
}

/// A range of a file is in the first `n` bytes of the data area.
pub open spec fn range_below(v: Volume, f: int, x: int, y: int, n: int) -> bool {
    forall|i: int| x <= i < y ==> #[trigger] place(v.list(f), v.block_len(), i) < n
}

/// The second volume has all that the first one is known to hold: its directories, its files and
/// what can be read of them.
pub open spec fn reads_back(v: Volume, w: Volume) -> bool {
    &&& w.sound()
    &&& trees_same(v.tree(), w.tree())
    &&& counts_same(v, w)
    &&& forall|f: int, x: int, y: int|
        v.tree().files.contains_key(f) && 0 <= x <= y <= v.size(f) && #[trigger] v.content_readable(
            f,
            x,
            y,
        ) ==> w.content_readable(f, x, y) && w.content(f).subrange(x, y) == v.content(f).subrange(
            x,
            y,
        )
}

/// The second volume has what the first one is known to hold, as far as that is in the first `n`
/// bytes of the data area. What is behind those reads as zeros.
pub open spec fn reads_back_to(v: Volume, w: Volume, n: int) -> bool {
    &&& w.sound()
    &&& trees_same(v.tree(), w.tree())
    &&& counts_same(v, w)
    &&& forall|f: int, x: int, y: int|
        v.tree().files.contains_key(f) && 0 <= x <= y <= v.size(f) && #[trigger] v.content_readable(
            f,
            x,
            y,
        ) && range_below(v, f, x, y, n) ==> w.content_readable(f, x, y) && w.content(f).subrange(
            x,
            y,
        ) == v.content(f).subrange(x, y)
    &&& forall|f: int, i: int|
        v.tree().files.contains_key(f) && 0 <= i < v.size(f) && #[trigger] place(
            v.list(f),
            v.block_len(),
            i,
        ) >= n ==> w.content_readable(f, i, i + 1) && w.content(f)[i] == 0
}

/// Where all of the data area is meant, all is read back.
pub proof fn lemma_reads_back_whole(v: Volume, w: Volume, n: int)
    requires
        v.sound(),
        reads_back_to(v, w, n),
        v.data.bytes().len() <= n,
    ensures
        reads_back(v, w),
{
    assert forall|f: int, x: int, y: int|
        v.tree().files.contains_key(f) && 0 <= x <= y <= v.size(f) && #[trigger] v.content_readable(
            f,
            x,
            y,
        ) implies w.content_readable(f, x, y) && w.content(f).subrange(x, y) == v.content(
        f,
    ).subrange(x, y) by {
        assert(v.file_ok(f));
        if v.chains@.contains_key(f) {
            let l = v.list(f);
            lemma_list(v, f);
            assert forall|i: int| x <= i < y implies #[trigger] place(l, v.block_len(), i) < n by {
                lemma_block_of(v.block_len(), l.len() as int, i);
            }
        }
        assert(range_below(v, f, x, y, n));
    }
}

/// Files that have the same blocks read the same from data areas of which the second is known in
/// more places.
proof fn lemma_content_more(v: Volume, w: Volume, f: int, x: int, y: int, n: int)
    requires
        v.framed(),
        w.framed(),
        v.file_ok(f),
        w.file_ok(f),
        w.block_len() == v.block_len(),
        w.tree().files[f] == v.tree().files[f],
        v.chains@.contains_key(f) ==> w.chains@[f] == v.chains@[f],
        more_to(v.data, w.data, n),
        0 <= x <= y <= v.size(f),
        v.content_readable(f, x, y),
        range_below(v, f, x, y, n),
    ensures
        w.content_readable(f, x, y),
        w.content(f).subrange(x, y) == v.content(f).subrange(x, y),
{
    if v.chains@.contains_key(f) {
        let l = v.list(f);
        let bl = v.block_len();
        reveal(more_to);
        assert forall|i: int| x <= i < y implies w.data.readable(0 + #[trigger] place(l, bl, i))
            && w.data.bytes()[place(l, bl, i)] == v.data.bytes()[place(l, bl, i)] by {
            let j = place(l, bl, i);
            assert(v.data.readable(0 + j));
            assert(cell(v.data, j).0);
            assert(cell(w.data, j) == cell(v.data, j));
        }
        let a = v.content(f).subrange(x, y);
        let b = w.content(f).subrange(x, y);
        assert forall|k: int| 0 <= k < y - x implies a[k] == b[k] by {
            let j = place(l, bl, x + k);
            assert(w.data.bytes()[j] == v.data.bytes()[j]);
        }
        assert(b =~= a);
    } else {
        assert(w.content(f).subrange(x, y) =~= v.content(f).subrange(x, y));
    }
}

/// The blocks of a table are those that have been found from its first block.
proof fn lemma_table_list(v: Volume, w: Volume, key: int)
    requires
        v.framed(),
        w.framed(),
        more(v.fat.table, w.fat.table),
        v.chains@.contains_key(key),
        w.chains@.contains_key(key),
        v.chains@[key].len() > 0,
        w.chains@[key].len() > 0,
        v.chains@[key][0].start == w.chains@[key][0].start,
    ensures
        v.chains@[key] == w.chains@[key],
{
    assert(v.chain_ok(key));
    assert(w.chain_ok(key));
    lemma_fat_more(v.fat.table, w.fat.table, v.fat.free_list());
    assert(chain(w.fat.table, v.chains@[key]));
    lemma_chain_one(w.fat.table, v.chains@[key], w.chains@[key]);
}

/// The first volume, with the second one's knowledge.
pub open spec fn widened(v: Volume, w: Volume) -> Volume {
    Volume {
        fs: FsMeta {
            dirs: MetaTable { lists: v.fs.dirs.lists, ..w.fs.dirs },
            files: MetaTable { lists: v.fs.files.lists, ..w.fs.files },
            tree: v.fs.tree,
        },
        fat: Fat { table: w.fat.table, ..v.fat },
        data: w.data,
        chains: v.chains,
    }
}

/// All that is stored of one volume is also stored of the other.
proof fn lemma_known_more(parts: Seq<DifiPartition>, src: Source, v: Volume, w: Volume, st: Store)
    requires
        holds(parts, src, v),
        mounted(parts, src, w, st),
        told(src, w, st, parts),
        w.framed(),
    ensures
        more(v.fs.dirs.hash, w.fs.dirs.hash),
        more(v.fs.files.hash, w.fs.files.hash),
        more(v.fat.table, w.fat.table),
        more_to(v.data, w.data, src.data_stored(parts)),
        more(v.fs.dirs.table, w.fs.dirs.table),
        more(v.fs.files.table, w.fs.files.table),
{
    let i = src.info;
    let l = src.layout;
    let p = Pieces {
        dir_hash: w.fs.dirs.hash,
        file_hash: w.fs.files.hash,
        fat: w.fat.table,
        data: w.data,
    };
    lemma_pieces_more(parts, src, v, p);
    if parts.len() != 2 {
        lemma_table_list(v, w, -1);
        lemma_table_list(v, w, -2);
    }
    lemma_table_more(
        parts,
        src,
        v,
        v.fs.dirs.table,
        i.dir_table,
        table_len(i.max_dir + 2, l.dir_key_len, l.dir_info_len),
        -1,
        w.data,
        w.fs.dirs.table,
        st.dir_table,
    );
    lemma_table_more(
        parts,
        src,
        v,
        v.fs.files.table,
        i.file_table,
        table_len(i.max_file + 1, l.file_key_len, l.file_info_len),
        -2,
        w.data,
        w.fs.files.table,
        st.file_table,
    );
}

/// A table of blocks has one list of free blocks.
proof fn lemma_free_one(v: Volume, w: Volume)
    requires
        v.framed(),
        w.framed(),
        more(v.fat.table, w.fat.table),
    ensures
        w.fat.free_count() == v.fat.free_count(),
        block_count(w.fat.table) == block_count(v.fat.table),
{
    reveal(fat_sound);
    reveal(more);
    let c = v.fat.free_list();
    let d = w.fat.free_list();
    let t = w.fat.table;
    lemma_fat_more(v.fat.table, t, c);
    assert(free_list(t, c));
    assert(free_list(t, d));
    if c.len() > 0 && d.len() > 0 {
        lemma_chain_one(t, c, d);
    } else {
        assert(c =~= d);
    }
}

/// The directories and files that partitions hold are those that are opened on them, and as much
/// is free.
pub proof fn law_held_tree_reads_back(
    parts: Seq<DifiPartition>,
    src: Source,
    v: Volume,
    w: Volume,
    st: Store,
)
    requires
        holds(parts, src, v),
        mounted(parts, src, w, st),
        told(src, w, st, parts),
        w.framed(),
    ensures
        trees_same(v.tree(), w.tree()),
        counts_same(v, w),
{
    lemma_known_more(parts, src, v, w, st);
    let x = widened(v, w);
    reveal(more_to);
    lemma_volume_more(v, x);
    lemma_free_one(v, w);
    reveal(fs_sound);
    assert(x.fs.dirs.model() == w.fs.dirs.model());
    assert(x.fs.files.model() == w.fs.files.model());
    lemma_entries_one(w.fs.dirs.model(), x.fs.dirs.lists@, w.fs.dirs.lists@);
    lemma_entries_one(w.fs.files.model(), x.fs.files.lists@, w.fs.files.lists@);
    lemma_tree_one(w.fs.dirs.entries(), w.fs.files.entries(), v.tree(), w.tree());
}

/// What partitions hold is what is opened on them: the same directories and files, and each file
/// reads as it did, as far as the data area is stored.
pub proof fn law_held_volume_reads_back(
    parts: Seq<DifiPartition>,
    src: Source,
    v: Volume,
    w: Volume,
    st: Store,
)
    requires
        holds(parts, src, v),
        v.sound(),
        mounted(parts, src, w, st),
        told(src, w, st, parts),
        shown_as(parts, src, w),
        w.framed(),
    ensures
        reads_back_to(v, w, src.data_stored(parts)),
        v.data.bytes().len() <= src.data_stored(parts) ==> reads_back(v, w),
{
    let n = src.data_stored(parts);
    assert(holds_sound(parts, src));
    assert(w.sound());
    lemma_known_more(parts, src, v, w, st);
    law_held_tree_reads_back(parts, src, v, w, st);
    assert forall|f: int, a: int, b: int|
        v.tree().files.contains_key(f) && 0 <= a <= b <= v.size(f) && #[trigger] v.content_readable(
            f,
            a,
            b,
        ) && range_below(v, f, a, b, n) implies w.content_readable(f, a, b) && w.content(
        f,
    ).subrange(a, b) == v.content(f).subrange(a, b) by {
        assert(w.tree().files.contains_key(f));
        assert(v.file_ok(f) && w.file_ok(f));
        if v.chains@.contains_key(f) {
            lemma_table_list(v, w, f);
        }
        lemma_content_more(v, w, f, a, b, n);
    }
    assert forall|f: int, i: int|
        v.tree().files.contains_key(f) && 0 <= i < v.size(f) && #[trigger] place(
            v.list(f),
            v.block_len(),
            i,
        ) >= n implies w.content_readable(f, i, i + 1) && w.content(f)[i] == 0 by {
        assert(w.tree().files.contains_key(f));
        assert(v.file_ok(f) && w.file_ok(f));
        lemma_table_list(v, w, f);
        lemma_behind(parts, src, v, w, st, f, i);
    }
    if v.data.bytes().len() <= n {
        lemma_reads_back_whole(v, w, n);
    }
}

/// What is not stored reads as zeros.
proof fn lemma_behind(
    parts: Seq<DifiPartition>,
    src: Source,
    v: Volume,
    w: Volume,
    st: Store,
    f: int,
    i: int,
)
    requires
        v.framed(),
        w.framed(),
        mounted(parts, src, w, st),
        w.chains@.contains_key(f),
        w.file_ok(f),
        w.list(f) == v.list(f),
        w.block_len() == v.block_len(),
        0 <= i < w.size(f),
        place(v.list(f), v.block_len(), i) >= src.data_stored(parts),
    ensures
        w.content_readable(f, i, i + 1),
        w.content(f)[i] == 0,
{
    let l = w.list(f);
    let bl = w.block_len();
    let j = place(l, bl, i);
    lemma_list(w, f);
    lemma_block_of(bl, l.len() as int, i);
    assert(0 <= j < w.data.data@.len());
    assert(shown_at(
        cell(w.data, j),
        parts[if parts.len() == 2 {
            1int
        } else {
            0
        }],
        src.data_pos(parts.len() as int),
        src.data_stored(parts),
        j,
    ));
    assert forall|k: int| i <= k < i + 1 implies w.data.readable(0 + #[trigger] place(l, bl, k)) by {
        assert(k == i);
    }
}

/// What reads back of a volume that has been written out reads back of the volume as it was before.
pub proof fn lemma_read_back_before(a: Volume, b: Volume, w: Volume, n: int)
    requires
        a.sound(),
        files_as_before(a, b),
        reads_back_to(b, w, n),
    ensures
        reads_back_to(a, w, n),
{
    assert(counts_same(a, w));
    assert forall|f: int, x: int, y: int|
        a.tree().files.contains_key(f) && 0 <= x <= y <= a.size(f) && #[trigger] a.content_readable(
            f,
            x,
            y,
        ) && range_below(a, f, x, y, n) implies w.content_readable(f, x, y) && w.content(
        f,
    ).subrange(x, y) == a.content(f).subrange(x, y) by {
        assert(a.file_ok(f));
        let l = a.list(f);
        assert forall|i: int| x <= i < y implies b.data.readable(
            0 + #[trigger] place(l, a.block_len(), i),
        ) by {
            assert(a.data.readable(0 + place(l, a.block_len(), i)));
        }
        assert(b.content_readable(f, x, y));
        assert(range_below(b, f, x, y, n));
        assert(b.content(f) == a.content(f));
    }
    assert forall|f: int, i: int|
        a.tree().files.contains_key(f) && 0 <= i < a.size(f) && #[trigger] place(
            a.list(f),
            a.block_len(),
            i,
        ) >= n implies w.content_readable(f, i, i + 1) && w.content(f)[i] == 0 by {
        assert(place(b.list(f), b.block_len(), i) >= n);
    }
}

} // verus!
