use crate::fat::Fat;
use crate::meta_table::MetaTable;
use crate::random_access_file::Content;
use crate::shadow::Shadow;
use crate::volume::Volume;
use vstd::prelude::*;

verus! {

use crate::fat::sound;
use crate::fat_list::{chain, kept_off, lemma_chain_kept, Span};
use crate::fat_table::at;
use crate::meta_list::{entries, listed, live, Meta};
use crate::meta_table::lemma_row_within;
use crate::random_access_file::{all_readable, can_read, same_file};
use crate::shadow::cell;
use crate::volume::{fat_sound, fs_sound};

/// The second shadow knows at least what the first one knows.
#[verifier::opaque]
pub open spec fn more(a: Shadow, b: Shadow) -> bool {
    &&& a.inv()
    &&& b.inv()
    &&& b.data@.len() == a.data@.len()
    &&& forall|i: int|
        0 <= i < a.data@.len() && (#[trigger] cell(a, i)).0 ==> cell(b, i) == cell(a, i)
}

/// The second shadow knows at least what the first one knows of the positions below `n`.
#[verifier::opaque]
pub open spec fn more_to(a: Shadow, b: Shadow, n: int) -> bool {
    &&& a.inv()
    &&& b.inv()
    &&& b.data@.len() == a.data@.len()
    &&& forall|i: int|
        0 <= i < a.data@.len() && i < n && (#[trigger] cell(a, i)).0 ==> cell(b, i) == cell(a, i)
}

pub proof fn lemma_more_to_same(a: Shadow, b: Shadow, c: Shadow, n: int)
    requires
        more_to(a, b, n),
        c.inv(),
        same_file(b, c),
    ensures
        more_to(a, c, n),
{
    reveal(more_to);
    assert forall|i: int| 0 <= i < a.data@.len() && i < n && (#[trigger] cell(a, i)).0 implies cell(
        c,
        i,
    ) == cell(a, i) by {
        assert(cell(b, i) == cell(a, i));
        assert(c.readable(i) == b.readable(i));
    }
}

pub proof fn lemma_more_same(a: Shadow, b: Shadow, c: Shadow)
    requires
        more(a, b),
        c.inv(),
        same_file(b, c),
    ensures
        more(a, c),
{
    reveal(more);
    assert forall|i: int| 0 <= i < a.data@.len() && (#[trigger] cell(a, i)).0 implies cell(c, i)
        == cell(a, i) by {
        assert(cell(b, i) == cell(a, i));
        assert(c.readable(i) == b.readable(i));
    }
}

proof fn lemma_more_range(a: Shadow, b: Shadow, pos: int, len: int)
    requires
        more(a, b),
        can_read(a, pos, len),
        0 <= pos,
        0 <= len,
    ensures
        can_read(b, pos, len),
        b.bytes().subrange(pos, pos + len) == a.bytes().subrange(pos, pos + len),
{
    reveal(more);
    assert forall|i: int| pos <= i < pos + len implies #[trigger] b.readable(i) && b.bytes()[i]
        == a.bytes()[i] by {
        assert(a.readable(i));
        assert(cell(a, i).0);
        assert(cell(b, i) == cell(a, i));
    }
    let x = a.bytes().subrange(pos, pos + len);
    let y = b.bytes().subrange(pos, pos + len);
    assert forall|k: int| 0 <= k < len implies x[k] == y[k] by {
        assert(b.readable(pos + k));
    }
    assert(y =~= x);
}

/// A table of blocks that is known in more places has the same lists.
pub proof fn lemma_fat_more(a: Shadow, b: Shadow, free: Seq<Span>)
    requires
        more(a, b),
    ensures
        sound(a, free) ==> sound(b, free),
        forall|c: Seq<Span>| chain(a, c) ==> #[trigger] chain(b, c),
{
    reveal(more);
    let none = Seq::<Span>::empty();
    assert forall|j: int| at(a, j) is Some implies #[trigger] at(b, j) == at(a, j) by {
        lemma_more_range(a, b, 8 * j, 8);
    }
    assert(kept_off(a, b, none));
    assert forall|c: Seq<Span>| chain(a, c) implies #[trigger] chain(b, c) by {
        lemma_chain_kept(a, b, none, c);
    }
    if sound(a, free) {
        assert(at(a, 0) is Some);
        assert(at(b, 0) == at(a, 0));
        assert(chain(b, free));
    }
}

/// The stored tables are the same up to the last entry that was ever used.
pub open spec fn same_used(a: Meta, b: Meta) -> bool {
    &&& b.heads == a.heads
    &&& b.key_len == a.key_len
    &&& b.info_len == a.info_len
    &&& b.rows.len() == a.rows.len()
    &&& forall|e: int| 0 <= e < a.rows.len() ==> (#[trigger] b.rows[e]).len() == a.rows[e].len()
    &&& forall|e: int| 0 <= e < a.count() && e < a.rows.len() ==> #[trigger] b.rows[e] == a.rows[e]
}

proof fn lemma_same_used(a: Meta, b: Meta, g: crate::meta_list::Lists)
    requires
        listed(a, g),
        same_used(a, b),
    ensures
        listed(b, g),
        entries(b, g) == entries(a, g),
        b.max() == a.max(),
        b.count() == a.count(),
        b.link(0) == a.link(0),
{
    assert(b.rows[0] == a.rows[0]);
    assert forall|e: int| 0 <= e < a.count() implies b.rows[e] == a.rows[e] by {}
    assert forall|e: int| live(b, g, e) implies b.bucket(#[trigger] b.key(e)) == g.pos[e].0 by {
        assert(live(a, g, e));
        assert(a.bucket(a.key(e)) == g.pos[e].0);
        assert(b.rows[e] == a.rows[e]);
    }
    assert forall|e: int, f: int|
        live(b, g, e) && live(b, g, f) && e != f implies #[trigger] b.key(e) != #[trigger] b.key(
        f,
    ) by {
        assert(live(a, g, e) && live(a, g, f));
        assert(b.rows[e] == a.rows[e] && b.rows[f] == a.rows[f]);
        assert(a.key(e) != a.key(f));
    }
    assert forall|x: int, i: int| 0 <= x < g.lists.len() && 0 <= i < g.lists[x].len() implies {
        let e = #[trigger] g.item(x, i);
        1 <= e < b.count() && g.pos[e] == (x, i) && b.link(e) == g.below(x, i)
    } by {
        let e = g.item(x, i);
        assert(b.rows[e] == a.rows[e]);
    }
    assert forall|x: int| 0 <= x < g.lists.len() implies #[trigger] b.head(x) == g.top(x) by {
        assert(a.head(x) == g.top(x));
    }
    assert(entries(b, g) =~= entries(a, g)) by {
        assert forall|e: int| live(a, g, e) implies b.key(e) == a.key(e) && b.info(e) == a.info(e) by {
            assert(b.rows[e] == a.rows[e]);
        }
    }
}

/// A table that is known in more places has the same entries.
pub proof fn lemma_meta_more(a: MetaTable<Shadow>, b: MetaTable<Shadow>)
    requires
        a.wf(),
        more(a.hash, b.hash),
        more(a.table, b.table),
        b.key_len == a.key_len,
        b.info_len == a.info_len,
        b.lists == a.lists,
    ensures
        b.wf(),
        b.entries() == a.entries(),
        b.room() == a.room(),
        b.model().max() == a.model().max(),
        b.shape() == a.shape(),
{
    reveal(more);
    let m = a.model();
    let n = b.model();
    let rl = a.row_len();
    lemma_more_range(a.hash, b.hash, 0, a.hash.bytes().len() as int);
    assert(a.hash.bytes().subrange(0, a.hash.bytes().len() as int) =~= a.hash.bytes());
    assert(b.hash.bytes().subrange(0, b.hash.bytes().len() as int) =~= b.hash.bytes());
    assert(b.hash.bytes() == a.hash.bytes());
    let len = a.table.bytes().len() as int;
    assert(m.count() * m.row_len() <= len) by {
        lemma_row_within(len, rl, m.count() - 1);
        vstd::arithmetic::mul::lemma_mul_is_distributive_add_other_way(rl, m.count() - 1, 1);
    }
    assert forall|e: int| 0 <= e < m.rows.len() implies (#[trigger] n.rows[e]).len()
        == m.rows[e].len() by {
        lemma_row_within(len, rl, e);
    }
    assert forall|e: int| 0 <= e < m.count() && e < m.rows.len() implies #[trigger] n.rows[e]
        == m.rows[e] by {
        lemma_row_within(len, rl, e);
        vstd::arithmetic::mul::lemma_mul_inequality(e + 1, m.count() as int, rl);
        vstd::arithmetic::mul::lemma_mul_is_distributive_add_other_way(rl, e, 1);
        assert forall|i: int| e * rl <= i < e * rl + rl implies #[trigger] a.table.readable(i) by {
            assert(0 <= i < m.count() * m.row_len());
        }
        lemma_more_range(a.table, b.table, e * rl, rl);
    }
    lemma_same_used(m, n, a.lists@);
    assert(all_readable(b.table, 0, (n.count() * n.row_len()) as int)) by {
        assert forall|i: int| 0 <= i < m.count() * m.row_len() implies #[trigger] b.table.readable(
            i,
        ) by {
            assert(a.table.readable(i));
            assert(cell(a.table, i).0);
        }
    }
}

/// A volume that is known in more places is as sound, and has the same files.
pub proof fn lemma_volume_more(a: Volume, b: Volume)
    requires
        a.framed(),
        more(a.fs.dirs.hash, b.fs.dirs.hash),
        more(a.fs.dirs.table, b.fs.dirs.table),
        more(a.fs.files.hash, b.fs.files.hash),
        more(a.fs.files.table, b.fs.files.table),
        more(a.fat.table, b.fat.table),
        b.data.inv(),
        b.data.bytes().len() == a.data.bytes().len(),
        b.fs.dirs.key_len == a.fs.dirs.key_len,
        b.fs.dirs.info_len == a.fs.dirs.info_len,
        b.fs.dirs.lists == a.fs.dirs.lists,
        b.fs.files.key_len == a.fs.files.key_len,
        b.fs.files.info_len == a.fs.files.info_len,
        b.fs.files.lists == a.fs.files.lists,
        b.fs.tree == a.fs.tree,
        b.fat == (Fat { table: b.fat.table, ..a.fat }),
        b.chains == a.chains,
        b.fs.inv(),
    ensures
        b.framed(),
        a.sound() ==> b.sound(),
        b.fs.dirs.room() == a.fs.dirs.room(),
        b.fs.files.room() == a.fs.files.room(),
        b.fs.dirs.model().max() == a.fs.dirs.model().max(),
        b.fs.files.model().max() == a.fs.files.model().max(),
{
    reveal(more);
    reveal(fs_sound);
    reveal(fat_sound);
    lemma_meta_more(a.fs.dirs, b.fs.dirs);
    lemma_meta_more(a.fs.files, b.fs.files);
    lemma_fat_more(a.fat.table, b.fat.table, a.fat.free_list());
    if a.sound() {
        assert forall|f: int| #[trigger] b.tree().files.contains_key(f) implies f >= 0 && b.file_ok(
            f,
        ) by {
            assert(a.tree().files.contains_key(f));
            assert(a.file_ok(f));
        }
    }
    assert forall|f: int| #[trigger] b.chains@.contains_key(f) implies b.chain_ok(f) by {
        assert(a.chains@.contains_key(f));
        assert(a.chain_ok(f));
    }
}

} // verus!
