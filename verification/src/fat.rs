use crate::error::{make_error, Error};
use crate::fat_list::{BlockMap, Span};
use crate::fat_table::{get_head, get_node, set_head, set_node, Node, INDEX_END};
use crate::random_access_file::{copy_front, Content, RandomAccessFile};
use vstd::prelude::*;

verus! {

use crate::fat_list::{
    allocated, block_count, blocks, chain, cut_node, lemma_apart_symmetric, lemma_chain_kept,
    lemma_cut, lemma_cut_spread, lemma_free_kept, lemma_grown, lemma_inside_apart, lemma_inside_concat,
    lemma_inside_self, lemma_shrunk, lemma_split_spread, lemma_split_steps, lemma_two_writes, free_list, indices, inside, kept_off, left_part,
    lemma_blocks_bounded, lemma_give_back, lemma_maps_concat, lemma_maps_len_step, lemma_node_survives, lemma_same_nodes, lemma_take_part,
    lemma_locate, lemma_maps_single, lemma_runs_bounded, lemma_spread_concat, lemma_take_whole, lists_apart, maps, node_of, right_part, spread,
};
use crate::fat_table::{head_read, kept_index, lemma_node_read_bounds, lemma_same_at, node_read};
use crate::random_access_file::{all_readable, same_file, spliced, write_gives};
use vstd::arithmetic::div_mod::*;
use vstd::arithmetic::mul::*;

/// Every block of the list has a place in a table entry.
pub open spec fn list_ok(l: Seq<BlockMap>) -> bool {
    forall|k: int|
        0 <= k < l.len() ==> (#[trigger] l[k]).block_index + 1 < INDEX_END && l[k].node_start_index
            + 1 < INDEX_END
}

/// Adds the blocks of a run to a block list.
fn push_run(list: &mut Vec<BlockMap>, start: usize, size: usize)
    requires
        start + size <= INDEX_END,
    ensures
        final(list)@ == old(list)@ + (Span { start, size }).maps(),
{
    let mut i: usize = 0;
    while i < size
        invariant
            i <= size,
            start + size <= INDEX_END,
            list@ == old(list)@ + (Span { start, size }).maps().take(i as int),
        decreases size - i,
    {
        list.push(BlockMap { block_index: start + i, node_start_index: start });
        assert((Span { start, size }).maps().take(i + 1) =~= (Span { start, size }).maps().take(
            i as int,
        ).push((Span { start, size }).maps()[i as int]));
        i += 1;
    }
    assert((Span { start, size }).maps().take(size as int) =~= (Span { start, size }).maps());
}

/// Whether the table has `free` as its free list and `count` blocks can be taken from it.
spec fn can_allocate<T: Content>(t: T, free: Seq<Span>, count: int) -> bool {
    &&& free_list(t, free)
    &&& block_count(t) <= usize::MAX
    &&& 0 < count <= maps(free).len()
}

/// Takes the first `block_count` free blocks out of the free list `free`.
fn allocate<T: RandomAccessFile>(
    table: &mut T,
    count: usize,
    Ghost(free): Ghost<Seq<Span>>,
) -> (r: Result<(Vec<BlockMap>, Ghost<(Seq<Span>, Seq<Span>)>), Error>)
    requires
        old(table).inv(),
        count > 0,
    ensures
        final(table).inv(),
        final(table).bytes().len() == old(table).bytes().len(),
        r matches Ok(l) ==> l.0@.len() == count && list_ok(l.0@),
        can_allocate(*old(table), free, count as int) ==> (r matches Ok(l) && l.0@ == maps(l.1@.0)
            && allocated(*old(table), *final(table), free, count as int, l.1@.0, l.1@.1)),
{
    let ghost a = *old(table);
    let ghost can = can_allocate(a, free, count as int);
    let mut list: Vec<BlockMap> = Vec::new();
    let head = get_head(table);
    let mut cur: usize = match head {
        Ok(Some(i)) => i,
        Ok(None) => {
            return make_error(Error::BrokenFat);
        },
        Err(e) => {
            return make_error(e);
        },
    };
    let mut left: usize = count;
    let ghost mut i: int = 0;
    loop
        invariant
            table.inv(),
            a == *old(table),
            same_file(a, *table),
            0 < left <= count,
            cur + 1 < INDEX_END,
            list@.len() + left == count,
            list_ok(list@),
            can == can_allocate(a, free, count as int),
            can ==> {
                &&& 0 <= i < free.len()
                &&& cur == free[i].start
                &&& list@ == maps(free.take(i))
            },
        decreases left,
    {
        let ghost t0 = *table;
        proof {
            lemma_same_nodes(a, t0);
            lemma_node_read_bounds(t0, cur as int);
            if can {
                assert(node_read(a, cur as int) == Ok::<Node, Error>(node_of(free, i)));
                assert(free[i].start + free[i].size <= block_count(a));
            }
        }
        let node = match get_node(table, cur) {
            Ok(node) => node,
            Err(e) => {
                return make_error(e);
            },
        };
        if node.size <= left {
            push_run(&mut list, cur, node.size);
            left = left - node.size;
            if left == 0 {
                if let Some(next) = node.next {
                    proof {
                        lemma_same_nodes(a, *table);
                        lemma_node_read_bounds(a, next as int);
                        if can {
                            assert(node_read(a, next as int) == Ok::<Node, Error>(
                                node_of(free, i + 1),
                            ));
                            assert(free[i + 1].start + free[i + 1].size <= block_count(a));
                        }
                    }
                    let next_node = match get_node(table, next) {
                        Ok(next_node) => next_node,
                        Err(e) => {
                            return make_error(e);
                        },
                    };
                    proof {
                        lemma_same_at(a, *table);
                    }
                    if let Err(e) = set_node(table, next, Node { prev: None, ..next_node }) {
                        return make_error(e);
                    }
                }
                let ghost m1 = *table;
                if let Err(e) = set_head(table, node.next) {
                    return make_error(e);
                }
                let ghost m2 = *table;
                if let Err(e) = set_node(table, cur, Node { next: None, ..node }) {
                    return make_error(e);
                }
                proof {
                    if can {
                        lemma_take_whole(a, m1, m2, *table, free, i);
                        lemma_maps_len_step(free, i);
                    }
                }
                return Ok((list, Ghost((free.take(i + 1), free.skip(i + 1)))));
            }
            match node.next {
                None => {
                    proof {
                        if can {
                            lemma_maps_len_step(free, i);
                            assert(free.take(i + 1) =~= free);
                        }
                    }
                    return make_error(Error::BrokenFat);
                },
                Some(next) => {
                    proof {
                        if can {
                            lemma_maps_len_step(free, i);
                        }
                        i = i + 1;
                    }
                    cur = next;
                },
            }
        } else {
            let left_node = Node { size: left, prev: node.prev, next: None };
            let right_node = Node { size: node.size - left, prev: None, next: node.next };
            if let Err(e) = set_node(table, cur, left_node) {
                return make_error(e);
            }
            let ghost m1 = *table;
            if let Err(e) = set_node(table, cur + left, right_node) {
                return make_error(e);
            }
            let ghost m2 = *table;
            if let Some(next) = node.next {
                proof {
                    if can {
                        assert(node_read(a, next as int) == Ok::<Node, Error>(
                            node_of(free, i + 1),
                        ));
                        assert(free[i].apart(free[i + 1]));
                        assert(free[i + 1].start + free[i + 1].size <= block_count(a));
                        lemma_node_survives(
                            t0,
                            m1,
                            free[i + 1],
                            node_of(free, i + 1),
                            cur as int,
                            cur + left,
                        );
                        lemma_node_survives(
                            m1,
                            m2,
                            free[i + 1],
                            node_of(free, i + 1),
                            cur + left,
                            cur + node.size,
                        );
                    }
                    lemma_node_read_bounds(m2, next as int);
                }
                let next_node = match get_node(table, next) {
                    Ok(next_node) => next_node,
                    Err(e) => {
                        return make_error(e);
                    },
                };
                if next_node.prev != Some(cur) {
                    return make_error(Error::BrokenFat);
                }
                let ghost m25 = *table;
                if let Err(e) = set_node(
                    table,
                    next,
                    Node { prev: Some(cur + left), ..next_node },
                ) {
                    return make_error(e);
                }
                proof {
                    lemma_same_at(m2, m25);
                }
            }
            let ghost m3 = *table;
            if let Err(e) = set_head(table, Some(cur + left)) {
                return make_error(e);
            }
            push_run(&mut list, cur, left);
            proof {
                if can {
                    lemma_same_at(a, t0);
                    lemma_take_part(a, m1, m2, m3, *table, free, i, left as int);
                    let ls = Span { start: cur, size: left };
                    let l = left_part(free, i, left as int);
                    assert(l.drop_last() =~= free.take(i));
                    assert(l.last() == ls);
                }
            }
            return Ok(
                (
                    list,
                    Ghost((left_part(free, i, left as int), right_part(free, i, left as int))),
                ),
            );
        }
    }
}

/// Puts a list back in front of the free list. `first` is the first block of the list and
/// `last` the start of its last run.
fn free<T: RandomAccessFile>(
    table: &mut T,
    first: usize,
    last: usize,
    Ghost(c): Ghost<Seq<Span>>,
    Ghost(f): Ghost<Seq<Span>>,
) -> (r: Result<(), Error>)
    requires
        old(table).inv(),
        first + 1 < INDEX_END,
        last + 1 < INDEX_END,
    ensures
        final(table).inv(),
        final(table).bytes().len() == old(table).bytes().len(),
        can_free(*old(table), first, last, c, f) ==> r == Ok::<(), Error>(()) && free_list(
            *final(table),
            c + f,
        ) && kept_off(*old(table), *final(table), c + f),
{
    let ghost a = *old(table);
    let ghost can = can_free(a, first, last, c, f);
    let head = match get_head(table) {
        Ok(head) => head,
        Err(e) => {
            return make_error(e);
        },
    };
    proof {
        lemma_same_nodes(a, *table);
        lemma_same_at(a, *table);
        if can {
            assert(node_read(a, last as int) == Ok::<Node, Error>(node_of(c, c.len() - 1)));
            assert(c[c.len() - 1].start + c[c.len() - 1].size <= block_count(a));
        }
    }
    if let Some(front) = head {
        proof {
            lemma_node_read_bounds(a, front as int);
            if can {
                assert(node_read(a, front as int) == Ok::<Node, Error>(node_of(f, 0)));
                assert(f[0].start + f[0].size <= block_count(a));
            }
        }
        let node = match get_node(table, front) {
            Ok(node) => node,
            Err(e) => {
                return make_error(e);
            },
        };
        if node.prev.is_some() {
            return make_error(Error::BrokenFat);
        }
        proof {
            lemma_same_at(a, *table);
        }
        if let Err(e) = set_node(table, front, Node { prev: Some(last), ..node }) {
            return make_error(e);
        }
        proof {
            if can {
                assert(c.last().apart(f[0]));
                lemma_node_survives(
                    a,
                    *table,
                    c.last(),
                    node_of(c, c.len() - 1),
                    front as int,
                    front + node.size,
                );
            }
        }
    }
    let ghost m1 = *table;
    proof {
        lemma_node_read_bounds(m1, last as int);
    }
    let node = match get_node(table, last) {
        Ok(node) => node,
        Err(e) => {
            return make_error(e);
        },
    };
    if node.next.is_some() {
        return make_error(Error::BrokenFat);
    }
    proof {
        lemma_same_at(m1, *table);
    }
    if let Err(e) = set_node(table, last, Node { next: head, ..node }) {
        return make_error(e);
    }
    let ghost m2 = *table;
    if let Err(e) = set_head(table, Some(first)) {
        return make_error(e);
    }
    proof {
        if can {
            lemma_give_back(a, m1, m2, *table, c, f);
        }
    }
    Ok(())
}

/// Whether `c` is a list from `first` with its last run at `last`, and `f` the free list.
spec fn can_free<T: Content>(t: T, first: usize, last: usize, c: Seq<Span>, f: Seq<Span>) -> bool {
    &&& chain(t, c)
    &&& free_list(t, f)
    &&& lists_apart(c, f)
    &&& c.len() > 0
    &&& first == c[0].start
    &&& last == c.last().start
}

/// The runs that are reached from run `cur` on, where `prev` is the run before it. At most
/// `fuel` runs are followed.
pub open spec fn walk<T: Content>(
    t: T,
    cur: Option<usize>,
    prev: Option<usize>,
    fuel: nat,
) -> Result<Seq<Span>, Error>
    decreases fuel,
{
    match cur {
        None => Ok(Seq::empty()),
        Some(i) => if fuel == 0 {
            Err(Error::BrokenFat)
        } else {
            match node_read(t, i as int) {
                Err(e) => Err(e),
                Ok(n) => if n.prev != prev {
                    Err(Error::BrokenFat)
                } else {
                    prepended(
                        seq![Span { start: i, size: n.size }],
                        walk(t, n.next, Some(i), (fuel - 1) as nat),
                    )
                },
            }
        },
    }
}

/// The result with `c` in front of its list.
pub open spec fn prepended(c: Seq<Span>, r: Result<Seq<Span>, Error>) -> Result<Seq<Span>, Error> {
    match r {
        Ok(d) => Ok(c + d),
        Err(e) => Err(e),
    }
}

/// The runs of the list that starts with run `first`.
pub open spec fn list_from<T: Content>(t: T, first: usize) -> Result<Seq<Span>, Error> {
    walk(t, Some(first), None, (t.bytes().len() / 8) as nat)
}

/// Following a list that the table holds gives the list.
pub proof fn lemma_walk_chain<T: Content>(t: T, c: Seq<Span>, k: int, fuel: nat)
    requires
        chain(t, c),
        0 <= k <= c.len(),
        fuel >= c.len() - k,
    ensures
        walk(
            t,
            if k < c.len() {
                Some(c[k].start)
            } else {
                None
            },
            if k > 0 {
                Some(c[k - 1].start)
            } else {
                None
            },
            fuel,
        ) == Ok::<Seq<Span>, Error>(c.skip(k)),
    decreases c.len() - k,
{
    if k < c.len() {
        assert(node_read(t, c[k].start as int) == Ok::<Node, Error>(node_of(c, k)));
        lemma_walk_chain(t, c, k + 1, (fuel - 1) as nat);
        assert(seq![Span { start: c[k].start, size: c[k].size }] + c.skip(k + 1) =~= c.skip(k));
    } else {
        assert(c.skip(k) =~= Seq::empty());
    }
}

/// A list that the table holds is found from its first run.
pub proof fn lemma_list_from<T: Content>(t: T, c: Seq<Span>)
    requires
        chain(t, c),
        c.len() > 0,
        block_count(t) <= usize::MAX,
    ensures
        list_from(t, c[0].start) == Ok::<Seq<Span>, Error>(c),
{
    assert(c[0].start + c[0].size <= block_count(t));
    lemma_blocks_bounded(c, block_count(t));
    lemma_runs_bounded(c);
    lemma_walk_chain(t, c, 0, (t.bytes().len() / 8) as nat);
    assert(c.skip(0) =~= c);
}

/// Follows the list that starts with run `first`.
fn iterate_fat_entry<T: RandomAccessFile>(table: &mut T, first: usize) -> (r: Result<
    Vec<Span>,
    Error,
>)
    requires
        old(table).inv(),
        first + 1 < INDEX_END,
    ensures
        final(table).inv(),
        same_file(*old(table), *final(table)),
        match r {
            Ok(v) => list_from(*old(table), first) == Ok::<Seq<Span>, Error>(v@) && v@.len() > 0
                && spans_ok(v@) && v@[0].start == first,
            Err(e) => list_from(*old(table), first) == Err::<Seq<Span>, Error>(e),
        },
{
    let ghost a = *old(table);
    let mut list: Vec<Span> = Vec::new();
    let mut fuel: usize = table.len() / 8;
    let mut cur: Option<usize> = Some(first);
    let mut prev: Option<usize> = None;
    while cur.is_some()
        invariant
            table.inv(),
            a == *old(table),
            same_file(a, *table),
            kept_index(cur) < INDEX_END,
            spans_ok(list@),
            list@.len() == 0 ==> cur == Some(first),
            list@.len() > 0 ==> list@[0].start == first,
            list_from(a, first) == prepended(list@, walk(a, cur, prev, fuel as nat)),
        decreases fuel,
    {
        let i: usize = cur.unwrap();
        if fuel == 0 {
            return make_error(Error::BrokenFat);
        }
        proof {
            lemma_same_nodes(a, *table);
            lemma_node_read_bounds(a, i as int);
        }
        let node = match get_node(table, i) {
            Ok(node) => node,
            Err(e) => {
                return make_error(e);
            },
        };
        if node.prev != prev {
            return make_error(Error::BrokenFat);
        }
        proof {
            let rest = walk(a, node.next, Some(i), (fuel - 1) as nat);
            let s = Span { start: i, size: node.size };
            if rest is Ok {
                assert(list@ + (seq![s] + rest->Ok_0) =~= list@.push(s) + rest->Ok_0);
            }
        }
        list.push(Span { start: i, size: node.size });
        cur = node.next;
        prev = Some(i);
        fuel = fuel - 1;
    }
    assert(list@ + Seq::<Span>::empty() =~= list@);
    Ok(list)
}

/// Every run of the list has a place in the table entries.
pub open spec fn spans_ok(c: Seq<Span>) -> bool {
    forall|k: int|
        0 <= k < c.len() ==> (#[trigger] c[k]).size >= 1 && c[k].start + c[k].size < INDEX_END
}

/// Where position `i` of a file is, counted from the start of the data area.
pub open spec fn place(list: Seq<BlockMap>, block_len: int, i: int) -> int {
    list[i / block_len].block_index * block_len + i % block_len
}

/// The bytes of the file that has the blocks of `list`. The data area starts at `base`.
pub open spec fn file_bytes(
    data: Seq<u8>,
    base: int,
    block_len: int,
    list: Seq<BlockMap>,
) -> Seq<u8> {
    Seq::new(
        (list.len() * block_len) as nat,
        |i: int| data[base + place(list, block_len, i)],
    )
}

/// Every block of the list is in the data area of a file of `len` bytes.
pub open spec fn blocks_within(
    list: Seq<BlockMap>,
    base: int,
    block_len: int,
    len: int,
) -> bool {
    forall|k: int|
        0 <= k < list.len() ==> base + (#[trigger] list[k]).block_index * block_len + block_len
            <= len
}

/// The bytes of the file from `pos` to `end` are initialized.
pub open spec fn file_readable<D: Content>(
    data: D,
    base: int,
    block_len: int,
    list: Seq<BlockMap>,
    pos: int,
    end: int,
) -> bool {
    forall|i: int|
        pos <= i < end ==> data.readable(base + #[trigger] place(list, block_len, i))
}

/// How far a file can be read block by block, from `pos` on: to `end`, or to the first block of
/// which some byte of the range is not initialized.
pub open spec fn read_stop<D: Content>(
    data: D,
    base: int,
    block_len: int,
    list: Seq<BlockMap>,
    pos: int,
    end: int,
) -> int
    decreases end - pos,
{
    let rest = block_len - pos % block_len;
    let next = if rest < end - pos {
        pos + rest
    } else {
        end
    };
    if pos >= end || block_len <= 0 {
        end
    } else if file_readable(data, base, block_len, list, pos, next) {
        proof {
            lemma_mod_bound(pos, block_len);
        }
        read_stop(data, base, block_len, list, next, end)
    } else {
        pos
    }
}

/// What is before the place where reading stops is initialized, and reading stops early just where
/// something is not.
pub proof fn lemma_read_stop<D: Content>(
    data: D,
    base: int,
    block_len: int,
    list: Seq<BlockMap>,
    pos: int,
    end: int,
)
    requires
        pos <= end,
        block_len > 0,
    ensures
        pos <= read_stop(data, base, block_len, list, pos, end) <= end,
        file_readable(
            data,
            base,
            block_len,
            list,
            pos,
            read_stop(data, base, block_len, list, pos, end),
        ),
        file_readable(data, base, block_len, list, pos, end) == (read_stop(
            data,
            base,
            block_len,
            list,
            pos,
            end,
        ) == end),
    decreases end - pos,
{
    if pos < end {
        let rest = block_len - pos % block_len;
        let next = if rest < end - pos {
            pos + rest
        } else {
            end
        };
        lemma_mod_bound(pos, block_len);
        if file_readable(data, base, block_len, list, pos, next) {
            lemma_read_stop(data, base, block_len, list, next, end);
            assert forall|i: int| pos <= i < end && file_readable(data, base, block_len, list, next, end)
                implies data.readable(base + #[trigger] place(list, block_len, i)) by {
                if i < next {
                }
            }
            let stop = read_stop(data, base, block_len, list, next, end);
            assert forall|i: int| pos <= i < stop implies data.readable(
                base + #[trigger] place(list, block_len, i),
            ) by {
                if i < next {
                }
            }
        }
    }
}

/// Data of which the same is initialized is read as far.
pub proof fn lemma_read_stop_same<D: Content>(
    a: D,
    b: D,
    base: int,
    block_len: int,
    list: Seq<BlockMap>,
    pos: int,
    end: int,
)
    requires
        forall|i: int| #[trigger] b.readable(i) == a.readable(i),
        block_len > 0,
    ensures
        read_stop(b, base, block_len, list, pos, end) == read_stop(
            a,
            base,
            block_len,
            list,
            pos,
            end,
        ),
    decreases end - pos,
{
    if pos < end {
        let rest = block_len - pos % block_len;
        let next = if rest < end - pos {
            pos + rest
        } else {
            end
        };
        lemma_mod_bound(pos, block_len);
        lemma_read_stop_same(a, b, base, block_len, list, next, end);
        if file_readable(a, base, block_len, list, pos, next) {
            assert(file_readable(b, base, block_len, list, pos, next));
        }
        if file_readable(b, base, block_len, list, pos, next) {
            assert(file_readable(a, base, block_len, list, pos, next));
        }
    }
}

/// Position `j` is in a block of the list.
pub open spec fn in_blocks(list: Seq<BlockMap>, base: int, block_len: int, j: int) -> bool {
    exists|k: int|
        0 <= k < list.len() && base + (#[trigger] list[k]).block_index * block_len <= j < base
            + list[k].block_index * block_len + block_len
}

/// What writing `buf` at `pos` of a file makes of the data: the file holds `buf` there, and
/// nothing else has changed, in the file or out of it.
pub open spec fn file_written<D: Content>(
    a: D,
    b: D,
    base: int,
    block_len: int,
    list: Seq<BlockMap>,
    pos: int,
    buf: Seq<u8>,
) -> bool {
    &&& b.bytes().len() == a.bytes().len()
    &&& file_bytes(b.bytes(), base, block_len, list) == spliced(
        file_bytes(a.bytes(), base, block_len, list),
        pos,
        buf,
    )
    &&& forall|j: int|
        0 <= j < a.bytes().len() && !in_blocks(list, base, block_len, j)
            ==> #[trigger] b.bytes()[j] == a.bytes()[j]
    &&& forall|j: int| a.readable(j) ==> #[trigger] b.readable(j)
    &&& file_readable(b, base, block_len, list, pos, pos + buf.len())
}

/// A position within block `i` of a file.
proof fn lemma_in_block(block_len: int, i: int, t: int)
    requires
        block_len > 0,
        0 <= i,
        i * block_len <= t < i * block_len + block_len,
    ensures
        t / block_len == i,
        t % block_len == t - i * block_len,
{
    lemma_fundamental_div_mod_converse(t, block_len, i, t - i * block_len);
}

/// Which block of a file a position is in.
pub proof fn lemma_block_of(block_len: int, n: int, t: int)
    requires
        block_len > 0,
        0 <= t < n * block_len,
    ensures
        0 <= t / block_len < n,
        (t / block_len) * block_len <= t < (t / block_len) * block_len + block_len,
        t % block_len == t - (t / block_len) * block_len,
{
    lemma_fundamental_div_mod(t, block_len);
    lemma_mod_bound(t, block_len);
    lemma_div_pos_is_pos(t, block_len);
    lemma_mul_is_commutative(t / block_len, block_len);
    if t / block_len >= n {
        lemma_mul_inequality(n, t / block_len, block_len);
    }
}

/// Two different blocks do not overlap.
pub proof fn lemma_blocks_apart(block_len: int, x: int, y: int)
    requires
        block_len > 0,
        x != y,
    ensures
        x * block_len + block_len <= y * block_len || y * block_len + block_len <= x * block_len,
{
    if x < y {
        lemma_mul_inequality(x + 1, y, block_len);
        lemma_mul_is_distributive_add_other_way(block_len, x, 1);
    } else {
        lemma_mul_inequality(y + 1, x, block_len);
        lemma_mul_is_distributive_add_other_way(block_len, y, 1);
    }
}

/// One block of a file is written.
proof fn lemma_write_step<D: Content>(
    a: D,
    m: D,
    b: D,
    base: int,
    block_len: int,
    list: Seq<BlockMap>,
    pos: int,
    buf: Seq<u8>,
    i: int,
    begin: int,
    end: int,
)
    requires
        block_len > 0,
        0 <= base,
        0 <= i < list.len(),
        0 <= pos <= begin <= end <= pos + buf.len(),
        i * block_len <= begin <= end <= i * block_len + block_len,
        indices(list).no_duplicates(),
        blocks_within(list, base, block_len, a.bytes().len() as int),
        file_written(a, m, base, block_len, list, pos, buf.take(begin - pos)),
        write_gives(
            m,
            b,
            base + list[i].block_index * block_len + (begin - i * block_len),
            buf.subrange(begin - pos, end - pos),
            Ok(()),
        ),
    ensures
        file_written(a, b, base, block_len, list, pos, buf.take(end - pos)),
{
    let p0 = base + list[i].block_index * block_len + (begin - i * block_len);
    let fa = file_bytes(a.bytes(), base, block_len, list);
    let fm = file_bytes(m.bytes(), base, block_len, list);
    let fb = file_bytes(b.bytes(), base, block_len, list);
    let want = spliced(fa, pos, buf.take(end - pos));
    let n = list.len() as int;
    assert forall|t: int| 0 <= t < fb.len() implies fb[t] == want[t] by {
        lemma_block_of(block_len, n, t);
        let k = t / block_len;
        let x = base + place(list, block_len, t);
        assert(base + list[k].block_index * block_len + block_len <= a.bytes().len());
        assert(fm[t] == spliced(fa, pos, buf.take(begin - pos))[t]);
        lemma_mul_nonnegative(list[k].block_index as int, block_len);
        if begin <= t < end {
            lemma_in_block(block_len, i, t);
            assert(x == p0 + (t - begin));
            assert(b.bytes()[x] == buf.subrange(begin - pos, end - pos)[t - begin]);
        } else {
            if k != i {
                assert(indices(list)[k] != indices(list)[i]);
                lemma_blocks_apart(
                    block_len,
                    list[k].block_index as int,
                    list[i].block_index as int,
                );
            }
            assert(!(p0 <= x < p0 + (end - begin)));
            assert(b.bytes()[x] == m.bytes()[x]);
        }
    }
    assert(fb =~= want);
    assert forall|j: int|
        0 <= j < a.bytes().len() && !in_blocks(
            list,
            base,
            block_len,
            j,
        ) implies #[trigger] b.bytes()[j] == a.bytes()[j] by {
        assert(m.bytes()[j] == a.bytes()[j]);
        assert(!(base + list[i].block_index * block_len <= j < base + list[i].block_index
            * block_len + block_len));
    }
    assert forall|j: int| a.readable(j) implies #[trigger] b.readable(j) by {
        assert(m.readable(j));
    }
    assert forall|t: int| pos <= t < end implies b.readable(
        base + #[trigger] place(list, block_len, t),
    ) by {
        if begin <= t {
            lemma_in_block(block_len, i, t);
        } else {
            assert(m.readable(base + place(list, block_len, t)));
        }
    }
    assert(buf.take(end - pos).len() == end - pos);
}

/// The number of blocks of all the runs, where it fits.
fn count_blocks(list: &Vec<Span>) -> (r: Option<usize>)
    ensures
        match r {
            Some(n) => n == maps(list@).len(),
            None => maps(list@).len() > usize::MAX,
        },
{
    let mut count: usize = 0;
    let mut i: usize = 0;
    while i < list.len()
        invariant
            i <= list@.len(),
            count == maps(list@.take(i as int)).len(),
        decreases list@.len() - i,
    {
        proof {
            lemma_maps_len_step(list@, i as int);
            lemma_maps_concat(list@.take(i + 1), list@.skip(i + 1));
            assert(list@ =~= list@.take(i + 1) + list@.skip(i + 1));
        }
        match count.checked_add(list[i].size) {
            Some(sum) => {
                count = sum;
            },
            None => {
                return None;
            },
        }
        i += 1;
    }
    assert(list@.take(i as int) =~= list@);
    Some(count)
}

/// A file allocation table: which blocks of a data area each file has, and which are free.
pub struct Fat<T> {
    pub table: T,
    pub block_len: usize,
    pub free_blocks: usize,
    pub free: Ghost<Seq<Span>>,
}

/// The free list of a table.
pub open spec fn free_runs<T: Content>(t: T) -> Result<Seq<Span>, Error> {
    match head_read(t) {
        Err(e) => Err(e),
        Ok(None) => Ok(Seq::empty()),
        Ok(Some(i)) => list_from(t, i),
    }
}

/// The table holds one free list, and its entries can name each of its blocks.
pub open spec fn sound<T: Content>(t: T, free: Seq<Span>) -> bool {
    free_list(t, free) && block_count(t) < INDEX_END
}

impl<T: RandomAccessFile> Fat<T> {
    /// What holds of a table in memory, whatever its content.
    pub open spec fn inv(&self) -> bool {
        self.table.inv() && self.block_len > 0
    }

    /// The free runs, in the order in which they will be used.
    pub open spec fn free_list(&self) -> Seq<Span> {
        self.free@
    }

    /// The number of blocks that are counted as free.
    pub open spec fn free_count(&self) -> int {
        self.free_blocks as int
    }

    /// The table is sound, and its free blocks are counted right.
    pub open spec fn wf(&self) -> bool {
        &&& self.inv()
        &&& sound(self.table, self.free_list())
        &&& self.free_count() == maps(self.free_list()).len()
    }

    /// Makes a table in which all blocks are free, in one run.
    pub fn format(table: &mut T) -> (r: Result<(), Error>)
        requires
            old(table).inv(),
            2 <= old(table).bytes().len() / 8 <= INDEX_END,
        ensures
            final(table).inv(),
            r == Ok::<(), Error>(()),
            final(table).bytes().len() == old(table).bytes().len(),
            sound(
                *final(table),
                seq![Span { start: 0, size: block_count(*old(table)) as usize }],
            ),
    {
        let count: usize = table.len() / 8 - 1;
        if let Err(e) = set_head(table, Some(0)) {
            return make_error(e);
        }
        let ghost m = *table;
        if let Err(e) = set_node(table, 0, Node { size: count, prev: None, next: None }) {
            return make_error(e);
        }
        proof {
            let c = seq![Span { start: 0, size: count }];
            assert(node_of(c, 0) == Node { size: count, prev: None, next: None });
            assert(head_read(*table) == head_read(m));
        }
        Ok(())
    }

    /// Opens a table for a data area of `data_len` bytes.
    pub fn new(table: T, data_len: usize, block_len: usize) -> (r: Result<Fat<T>, Error>)
        requires
            table.inv(),
            block_len > 0,
        ensures
            table.bytes().len() % 8 != 0 || table.bytes().len() == 0 || data_len != block_count(
                table,
            ) * block_len ==> r == Err::<Fat<T>, Error>(Error::SizeMismatch),
            table.bytes().len() % 8 == 0 && table.bytes().len() > 0 && data_len == block_count(
                table,
            ) * block_len ==> match free_runs(table) {
                Err(e) => r == Err::<Fat<T>, Error>(e),
                Ok(c) => if maps(c).len() > usize::MAX {
                    r == Err::<Fat<T>, Error>(Error::BrokenFat)
                } else {
                    r matches Ok(fat) && fat.inv() && same_file(table, fat.table) && fat.block_len
                        == block_len && fat.free_list() == c && fat.free_count() == maps(c).len()
                },
            },
            forall|c: Seq<Span>|
                table.bytes().len() % 8 == 0 && table.bytes().len() > 0 && data_len
                    == block_count(table) * block_len && #[trigger] sound(table, c) ==> (
                r matches Ok(fat) && fat.wf() && fat.free_list() == c && same_file(
                    table,
                    fat.table,
                ) && fat.block_len == block_len),
    {
        let mut table = table;
        let ghost a = table;
        let table_len: usize = table.len();
        if table_len % 8 != 0 || table_len == 0 {
            return make_error(Error::SizeMismatch);
        }
        let count: usize = table_len / 8 - 1;
        match count.checked_mul(block_len) {
            Some(len) => {
                if data_len != len {
                    return make_error(Error::SizeMismatch);
                }
            },
            None => {
                return make_error(Error::SizeMismatch);
            },
        }
        proof {
            assert forall|c: Seq<Span>| #[trigger] sound(a, c) implies free_runs(a) == Ok::<
                Seq<Span>,
                Error,
            >(c) && maps(c).len() <= usize::MAX by {
                lemma_blocks_bounded(c, block_count(a));
                if c.len() > 0 {
                    lemma_list_from(a, c);
                } else {
                    assert(c =~= Seq::empty());
                }
            }
        }
        let head = match get_head(&mut table) {
            Ok(head) => head,
            Err(e) => {
                return make_error(e);
            },
        };
        proof {
            lemma_same_walk(a, table);
        }
        let mut free_blocks: usize = 0;
        let ghost mut free: Seq<Span> = Seq::empty();
        if let Some(first) = head {
            let list = match iterate_fat_entry(&mut table, first) {
                Ok(list) => list,
                Err(e) => {
                    return make_error(e);
                },
            };
            proof {
                free = list@;
            }
            free_blocks = match count_blocks(&list) {
                Some(n) => n,
                None => {
                    return make_error(Error::BrokenFat);
                },
            };
        }
        let fat = Fat { table, block_len, free_blocks, free: Ghost(free) };
        proof {
            lemma_same_nodes(a, table);
        }
        Ok(fat)
    }

    /// The number of free blocks.
    pub fn free_blocks(&self) -> (n: usize)
        ensures
            n == self.free_count(),
    {
        self.free_blocks
    }
}

/// The same table content gives the same lists.
pub proof fn lemma_same_walk<T: Content>(a: T, b: T)
    requires
        same_file(a, b),
    ensures
        forall|i: usize| #[trigger] list_from(b, i) == list_from(a, i),
{
    assert forall|i: usize| #[trigger] list_from(b, i) == list_from(a, i) by {
        lemma_same_walk_from(a, b, Some(i), None, (a.bytes().len() / 8) as nat);
    }
}

proof fn lemma_same_walk_from<T: Content>(
    a: T,
    b: T,
    cur: Option<usize>,
    prev: Option<usize>,
    fuel: nat,
)
    requires
        same_file(a, b),
    ensures
        walk(b, cur, prev, fuel) == walk(a, cur, prev, fuel),
    decreases fuel,
{
    lemma_same_nodes(a, b);
    if let Some(i) = cur {
        if fuel > 0 {
            match node_read(a, i as int) {
                Ok(n) => {
                    lemma_same_walk_from(a, b, n.next, Some(i), (fuel - 1) as nat);
                },
                Err(e) => {},
            }
        }
    }
}

/// A handle to a file in a `Fat`, for resizing, releasing, reading and writing it.
pub struct FatFile {
    pub block_list: Vec<BlockMap>,
    pub runs: Ghost<Seq<Span>>,
}

/// What happened to a table: the lists that are apart from `touched` are as they were.
pub open spec fn others_kept<T: RandomAccessFile>(a: Fat<T>, b: Fat<T>, touched: Seq<Span>) -> bool {
    &&& kept_off(a.table, b.table, touched)
    &&& b.block_len == a.block_len
}

impl FatFile {
    /// What holds of a handle, whatever the table holds.
    pub open spec fn inv(&self) -> bool {
        list_ok(self.block_list@) && self.block_list@.len() > 0
    }

    /// The block indices of the file.
    pub open spec fn blocks(&self) -> Seq<int> {
        indices(self.block_list@)
    }

    /// The handle is right: its blocks are those of a list of the table, and none is free.
    pub open spec fn wf<T: RandomAccessFile>(&self, fat: Fat<T>) -> bool {
        &&& self.inv()
        &&& chain(fat.table, self.runs@)
        &&& self.block_list@ == maps(self.runs@)
        &&& lists_apart(self.runs@, fat.free_list())
    }

    /// Opens the file at the given block index.
    pub fn open<T: RandomAccessFile>(fat: &mut Fat<T>, first_block: usize) -> (r: Result<
        FatFile,
        Error,
    >)
        requires
            old(fat).inv(),
        ensures
            final(fat).inv(),
            same_file(old(fat).table, final(fat).table),
            *final(fat) == (Fat { table: final(fat).table, ..*old(fat) }),
            first_block + 1 >= INDEX_END ==> r == Err::<FatFile, Error>(Error::OutOfBound),
            first_block + 1 < INDEX_END ==> match list_from(old(fat).table, first_block) {
                Ok(c) => r matches Ok(f) && f.inv() && f.block_list@ == maps(c) && f.runs@ == c,
                Err(e) => r == Err::<FatFile, Error>(e),
            },
            forall|c: Seq<Span>|
                old(fat).wf() && #[trigger] chain(old(fat).table, c) && c.len() > 0 && c[0].start
                    == first_block && lists_apart(c, old(fat).free_list()) ==> (r matches Ok(f)
                    && f.wf(*final(fat)) && f.runs@ == c),
    {
        let ghost a = fat.table;
        proof {
            assert forall|c: Seq<Span>| #[trigger]
                chain(a, c) && c.len() > 0 && c[0].start == first_block && block_count(a)
                    < INDEX_END implies list_from(a, first_block) == Ok::<Seq<Span>, Error>(c)
                && first_block + 1 < INDEX_END by {
                lemma_list_from(a, c);
                assert(c[0].start + c[0].size <= block_count(a));
            }
        }
        if first_block >= INDEX_END as usize - 1 {
            return make_error(Error::OutOfBound);
        }
        let list = match iterate_fat_entry(&mut fat.table, first_block) {
            Ok(list) => list,
            Err(e) => {
                return make_error(e);
            },
        };
        let mut block_list: Vec<BlockMap> = Vec::new();
        let mut i: usize = 0;
        while i < list.len()
            invariant
                i <= list@.len(),
                spans_ok(list@),
                list_ok(block_list@),
                block_list@ == maps(list@.take(i as int)),
                i > 0 ==> block_list@.len() > 0,
            decreases list@.len() - i,
        {
            proof {
                lemma_maps_len_step(list@, i as int);
            }
            push_run(&mut block_list, list[i].start, list[i].size);
            i += 1;
        }
        assert(list@.take(i as int) =~= list@);
        proof {
            lemma_same_nodes(a, fat.table);
        }
        Ok(FatFile { block_list, runs: Ghost(list@) })
    }

    /// Takes blocks for a new file, and returns its handle and its first block index.
    pub fn create<T: RandomAccessFile>(fat: &mut Fat<T>, block_count: usize) -> (r: Result<
        (FatFile, usize),
        Error,
    >)
        requires
            old(fat).inv(),
        ensures
            final(fat).inv(),
            final(fat).block_len == old(fat).block_len,
            final(fat).table.bytes().len() == old(fat).table.bytes().len(),
            block_count == 0 ==> r == Err::<(FatFile, usize), Error>(Error::InvalidValue),
            block_count > 0 && old(fat).free_count() < block_count ==> r == Err::<
                (FatFile, usize),
                Error,
            >(Error::NoSpace),
            block_count == 0 || old(fat).free_count() < block_count ==> *final(fat) == *old(fat),
            r matches Ok(f) ==> f.0.inv() && f.0.block_list@.len() == block_count && f.1
                == f.0.blocks()[0],
            old(fat).wf() && 0 < block_count <= old(fat).free_count() ==> {
                &&& r matches Ok(f)
                &&& final(fat).wf()
                &&& f.0.wf(*final(fat))
                &&& f.0.runs@[0].start == f.1
                &&& f.0.blocks() + blocks(final(fat).free_list()) == blocks(old(fat).free_list())
                &&& inside(f.0.runs@, old(fat).free_list())
                &&& inside(final(fat).free_list(), old(fat).free_list())
                &&& others_kept(*old(fat), *final(fat), old(fat).free_list())
            },
    {
        if block_count == 0 {
            return make_error(Error::InvalidValue);
        }
        if fat.free_blocks < block_count {
            return make_error(Error::NoSpace);
        }
        let (block_list, parts) = match allocate(&mut fat.table, block_count, fat.free) {
            Ok(l) => l,
            Err(e) => {
                return make_error(e);
            },
        };
        fat.free_blocks = fat.free_blocks - block_count;
        fat.free = Ghost(parts@.1);
        let first: usize = block_list[0].block_index;
        let f = FatFile { block_list, runs: Ghost(parts@.0) };
        proof {
            if old(fat).wf() {
                lemma_first_block(parts@.0, crate::fat_list::block_count(old(fat).table));
                assert(blocks(parts@.0).len() + blocks(parts@.1).len() == blocks(
                    old(fat).free_list(),
                ).len());
            }
        }
        Ok((f, first))
    }

    /// Gives the blocks of the file back to the free list.
    pub fn delete<T: RandomAccessFile>(self, fat: &mut Fat<T>) -> (r: Result<(), Error>)
        requires
            old(fat).inv(),
            self.inv(),
        ensures
            final(fat).inv(),
            final(fat).block_len == old(fat).block_len,
            final(fat).table.bytes().len() == old(fat).table.bytes().len(),
            old(fat).wf() && self.wf(*old(fat)) ==> {
                &&& r == Ok::<(), Error>(())
                &&& final(fat).wf()
                &&& final(fat).free_list() == self.runs@ + old(fat).free_list()
                &&& others_kept(
                    *old(fat),
                    *final(fat),
                    self.runs@ + old(fat).free_list(),
                )
            },
    {
        let n: usize = self.block_list.len();
        let ghost c = self.runs@;
        let ghost f = fat.free@;
        proof {
            if old(fat).wf() && self.wf(*old(fat)) {
                let total = block_count(old(fat).table);
                lemma_first_block(c, total);
                lemma_last_run(c, total);
                lemma_spread_concat(c, f, total);
                lemma_blocks_bounded(c + f, total);
                lemma_maps_concat(c, f);
            }
        }
        if let Err(e) = free(
            &mut fat.table,
            self.block_list[0].block_index,
            self.block_list[n - 1].node_start_index,
            self.runs,
            fat.free,
        ) {
            return make_error(e);
        }
        match fat.free_blocks.checked_add(n) {
            Some(sum) => {
                fat.free_blocks = sum;
            },
            None => {
                return make_error(Error::BrokenFat);
            },
        }
        fat.free = Ghost(c + f);
        Ok(())
    }

    /// Takes more blocks for the file, or gives some back.
    pub fn resize<T: RandomAccessFile>(&mut self, fat: &mut Fat<T>, block_count: usize) -> (r:
        Result<(), Error>)
        requires
            old(fat).inv(),
            old(self).inv(),
        ensures
            final(fat).inv(),
            final(self).inv(),
            final(fat).block_len == old(fat).block_len,
            final(fat).table.bytes().len() == old(fat).table.bytes().len(),
            block_count == 0 ==> r == Err::<(), Error>(Error::InvalidValue),
            block_count > 0 && old(fat).free_count() < block_count - old(self).blocks().len()
                ==> r == Err::<(), Error>(Error::NoSpace),
            block_count == old(self).blocks().len() ==> r == Ok::<(), Error>(()),
            block_count == 0 || block_count == old(self).blocks().len() || old(fat).free_count()
                < block_count - old(self).blocks().len() ==> *final(fat) == *old(fat)
                && *final(self) == *old(self),
            r is Ok ==> final(self).blocks().len() == block_count,
            r is Err ==> *final(self) == *old(self),
            old(fat).wf() && old(self).wf(*old(fat)) && block_count > 0 && old(fat).free_count()
                >= block_count - old(self).blocks().len() ==> {
                &&& r == Ok::<(), Error>(())
                &&& final(fat).wf()
                &&& final(self).wf(*final(fat))
                &&& final(self).blocks() + blocks(final(fat).free_list()) == old(self).blocks()
                    + blocks(old(fat).free_list())
                &&& inside(final(self).runs@, old(self).runs@ + old(fat).free_list())
                &&& inside(final(fat).free_list(), old(self).runs@ + old(fat).free_list())
                &&& others_kept(
                    *old(fat),
                    *final(fat),
                    old(self).runs@ + old(fat).free_list(),
                )
            },
    {
        let n: usize = self.block_list.len();
        if block_count == 0 {
            return make_error(Error::InvalidValue);
        }
        if block_count == n {
            proof {
                if old(fat).wf() && old(self).wf(*old(fat)) {
                    let c = self.runs@;
                    let f = fat.free@;
                    lemma_inside_self(c);
                    lemma_inside_self(f);
                    lemma_inside_concat(c, f, c, f);
                }
            }
            return Ok(());
        }
        if block_count > n {
            let delta: usize = block_count - n;
            if fat.free_blocks < delta {
                return make_error(Error::NoSpace);
            }
            self.grow(fat, delta)
        } else {
            self.shrink(fat, block_count)
        }
    }

    fn grow<T: RandomAccessFile>(&mut self, fat: &mut Fat<T>, delta: usize) -> (r: Result<
        (),
        Error,
    >)
        requires
            old(fat).inv(),
            old(self).inv(),
            0 < delta <= old(fat).free_count(),
        ensures
            final(fat).inv(),
            final(self).inv(),
            final(fat).block_len == old(fat).block_len,
            final(fat).table.bytes().len() == old(fat).table.bytes().len(),
            r is Ok ==> final(self).blocks().len() == old(self).blocks().len() + delta,
            r is Err ==> *final(self) == *old(self),
            old(fat).wf() && old(self).wf(*old(fat)) ==> {
                &&& r == Ok::<(), Error>(())
                &&& final(fat).wf()
                &&& final(self).wf(*final(fat))
                &&& final(self).blocks() + blocks(final(fat).free_list()) == old(self).blocks()
                    + blocks(old(fat).free_list())
                &&& inside(final(self).runs@, old(self).runs@ + old(fat).free_list())
                &&& inside(final(fat).free_list(), old(self).runs@ + old(fat).free_list())
                &&& others_kept(
                    *old(fat),
                    *final(fat),
                    old(self).runs@ + old(fat).free_list(),
                )
            },
    {
        let ghost a = fat.table;
        let ghost c = self.runs@;
        let ghost f = fat.free@;
        let ghost can = old(fat).wf() && old(self).wf(*old(fat));
        let ghost total = crate::fat_list::block_count(a);
        let n: usize = self.block_list.len();
        let (more, parts) = match allocate(&mut fat.table, delta, fat.free) {
            Ok(l) => l,
            Err(e) => {
                return make_error(e);
            },
        };
        let ghost m = fat.table;
        let ghost taken = parts@.0;
        let ghost rest = parts@.1;
        let tail_index: usize = self.block_list[n - 1].node_start_index;
        let head_index: usize = more[0].block_index;
        proof {
            lemma_node_read_bounds(m, tail_index as int);
            if can {
                lemma_apart_symmetric(c, f);
                lemma_chain_kept(a, m, f, c);
                lemma_last_run(c, total);
                lemma_first_block(taken, total);
                assert(node_read(m, tail_index as int) == Ok::<Node, Error>(
                    node_of(c, c.len() - 1),
                ));
                assert(node_read(m, head_index as int) == Ok::<Node, Error>(node_of(taken, 0)));
                assert(c[c.len() - 1].start + c[c.len() - 1].size <= total);
                assert(taken[0].start + taken[0].size <= total);
                lemma_inside_apart(taken, f, c);
                assert(taken[0].apart(c[c.len() - 1]));
            }
        }
        let tail = match get_node(&mut fat.table, tail_index) {
            Ok(node) => node,
            Err(e) => {
                return make_error(e);
            },
        };
        proof {
            lemma_same_at(m, fat.table);
            lemma_same_nodes(m, fat.table);
        }
        let ghost ma = fat.table;
        if let Err(e) = set_node(
            &mut fat.table,
            tail_index,
            Node { next: Some(head_index), ..tail },
        ) {
            return make_error(e);
        }
        let ghost m2 = fat.table;
        proof {
            lemma_node_read_bounds(m2, head_index as int);
            if can {
                lemma_node_survives(
                    ma,
                    m2,
                    taken[0],
                    node_of(taken, 0),
                    tail_index as int,
                    tail_index + tail.size,
                );
            }
        }
        let head = match get_node(&mut fat.table, head_index) {
            Ok(node) => node,
            Err(e) => {
                return make_error(e);
            },
        };
        proof {
            lemma_same_at(m2, fat.table);
        }
        if let Err(e) = set_node(
            &mut fat.table,
            head_index,
            Node { prev: Some(tail_index), ..head },
        ) {
            return make_error(e);
        }
        fat.free_blocks = fat.free_blocks - delta;
        fat.free = Ghost(rest);
        let mut more = more;
        self.block_list.append(&mut more);
        self.runs = Ghost(c + taken);
        proof {
            if can {
                lemma_grown(a, m, m2, fat.table, c, f, delta as int, taken, rest);
                lemma_maps_concat(c, taken);
                assert(blocks(taken).len() + blocks(rest).len() == blocks(f).len());
                assert(blocks(c) + blocks(taken) + blocks(rest) =~= blocks(c) + (blocks(taken)
                    + blocks(rest)));
            }
        }
        Ok(())
    }

    fn shrink<T: RandomAccessFile>(&mut self, fat: &mut Fat<T>, block_count: usize) -> (r: Result<
        (),
        Error,
    >)
        requires
            old(fat).inv(),
            old(self).inv(),
            0 < block_count < old(self).blocks().len(),
        ensures
            final(fat).inv(),
            final(self).inv(),
            final(fat).block_len == old(fat).block_len,
            final(fat).table.bytes().len() == old(fat).table.bytes().len(),
            r is Ok ==> final(self).blocks().len() == block_count,
            r is Err ==> *final(self) == *old(self),
            old(fat).wf() && old(self).wf(*old(fat)) ==> {
                &&& r == Ok::<(), Error>(())
                &&& final(fat).wf()
                &&& final(self).wf(*final(fat))
                &&& final(self).blocks() + blocks(final(fat).free_list()) == old(self).blocks()
                    + blocks(old(fat).free_list())
                &&& inside(final(self).runs@, old(self).runs@ + old(fat).free_list())
                &&& inside(final(fat).free_list(), old(self).runs@ + old(fat).free_list())
                &&& others_kept(
                    *old(fat),
                    *final(fat),
                    old(self).runs@ + old(fat).free_list(),
                )
            },
    {
        let ghost a = fat.table;
        let ghost whole = self.runs@;
        let ghost f = fat.free@;
        let ghost can = old(fat).wf() && old(self).wf(*old(fat));
        let n: usize = self.block_list.len();
        let delta: usize = n - block_count;
        let head_index: usize = self.block_list[block_count].block_index;
        let node_start: usize = self.block_list[block_count].node_start_index;
        let last_start: usize = self.block_list[n - 1].node_start_index;
        let cut = if head_index == node_start {
            let before: usize = self.block_list[block_count - 1].node_start_index;
            disconnect(
                &mut fat.table,
                before,
                head_index,
                Ghost(whole),
                Ghost(block_count as int),
            )
        } else {
            split_off(
                &mut fat.table,
                node_start,
                head_index,
                Ghost(whole),
                Ghost(block_count as int),
            )
        };
        let parts = match cut {
            Ok(parts) => parts,
            Err(e) => {
                return make_error(e);
            },
        };
        let ghost m = fat.table;
        let ghost c = parts@.0;
        let ghost d = parts@.1;
        let last: usize = if head_index != node_start && last_start == node_start {
            head_index
        } else {
            last_start
        };
        proof {
            if can {
                lemma_free_kept(a, m, whole, f);
                lemma_inside_apart(d, whole, f);
            }
        }
        if let Err(e) = free(&mut fat.table, head_index, last, Ghost(d), fat.free) {
            return make_error(e);
        }
        let sum = fat.free_blocks.checked_add(delta);
        proof {
            if can {
                let total = crate::fat_list::block_count(a);
                lemma_shrunk(a, m, fat.table, whole, c, d, f);
                lemma_maps_concat(d, f);
                lemma_blocks_bounded(d + f, total);
                assert(blocks(c).len() + blocks(d).len() == blocks(whole).len());
                assert(blocks(c) + (blocks(d) + blocks(f)) =~= blocks(c) + blocks(d) + blocks(f));
                assert(old(self).block_list@.take(block_count as int) == maps(c));
            }
        }
        match sum {
            Some(sum) => {
                fat.free_blocks = sum;
            },
            None => {
                return make_error(Error::BrokenFat);
            },
        }
        fat.free = Ghost(d + f);
        self.block_list.truncate(block_count);
        self.runs = Ghost(c);
        Ok(())
    }
}

impl FatFile {
    /// The length of the file.
    pub fn len(&self, block_len: usize) -> (n: usize)
        requires
            self.block_list@.len() * block_len <= usize::MAX,
        ensures
            n == self.block_list@.len() * block_len,
    {
        self.block_list.len() * block_len
    }

    /// Whether the range is within the file.
    pub open spec fn covers(&self, block_len: int, pos: int, len: int) -> bool {
        pos + len <= self.block_list@.len() * block_len && pos + len <= usize::MAX
    }

    /// Whether the range is within the file.
    fn holds(&self, block_len: usize, pos: usize, len: usize) -> (r: bool)
        ensures
            r == self.covers(block_len as int, pos as int, len as int),
    {
        match pos.checked_add(len) {
            None => false,
            Some(end) => match self.block_list.len().checked_mul(block_len) {
                None => true,
                Some(total) => end <= total,
            },
        }
    }

    /// Reads `len` bytes of the file at position `pos`, block by block, as far as that goes. The
    /// data area starts at `base`.
    fn load_blocks<D: RandomAccessFile>(
        &self,
        data: &mut D,
        base: usize,
        block_len: usize,
        pos: usize,
        len: usize,
    ) -> (r: (Vec<u8>, Result<(), Error>))
        requires
            old(data).inv(),
            block_len > 0,
        ensures
            final(data).inv(),
            same_file(*old(data), *final(data)),
            !self.covers(block_len as int, pos as int, len as int) ==> r.0@.len() == 0 && r.1
                == Err::<(), Error>(Error::OutOfBound),
            self.covers(block_len as int, pos as int, len as int) && blocks_within(
                self.block_list@,
                base as int,
                block_len as int,
                old(data).bytes().len() as int,
            ) ==> ({
                let stop = read_stop(
                    *old(data),
                    base as int,
                    block_len as int,
                    self.block_list@,
                    pos as int,
                    pos + len,
                );
                &&& r.0@ == file_bytes(
                    old(data).bytes(),
                    base as int,
                    block_len as int,
                    self.block_list@,
                ).subrange(pos as int, stop)
                &&& r.1 == if stop == pos + len {
                    Ok::<(), Error>(())
                } else {
                    Err(Error::HashMismatch)
                }
            }),
            r.0@.len() <= len,
            r.1 is Ok ==> r.0@.len() == len,
    {
        if !self.holds(block_len, pos, len) {
            return (Vec::new(), make_error(Error::OutOfBound));
        }
        let mut result: Vec<u8> = Vec::new();
        let n: usize = self.block_list.len();
        let _total: usize = data.len();
        let ghost list = self.block_list@;
        let ghost a = *data;
        let ghost bl = block_len as int;
        let ghost within = blocks_within(list, base as int, bl, a.bytes().len() as int);
        let mut i: usize = pos / block_len;
        let mut skip: usize = pos % block_len;
        let mut done: usize = 0;
        proof {
            lemma_fundamental_div_mod(pos as int, bl);
            lemma_mod_bound(pos as int, bl);
            lemma_mul_is_commutative(i as int, bl);
            assert(file_bytes(a.bytes(), base as int, bl, list).subrange(pos as int, pos as int)
                =~= Seq::empty());
        }
        while done < len
            invariant
                data.inv(),
                a == *old(data),
                same_file(a, *data),
                bl == block_len > 0,
                a.bytes().len() <= usize::MAX,
                self.covers(bl, pos as int, len as int),
                n == self.block_list@.len(),
                list == self.block_list@,
                within == blocks_within(list, base as int, bl, a.bytes().len() as int),
                done <= len,
                result@.len() == done,
                pos + len <= n * bl,
                skip < block_len,
                done < len ==> i * bl + skip == pos + done,
                within ==> result@ == file_bytes(a.bytes(), base as int, bl, list).subrange(
                    pos as int,
                    pos + done,
                ) && read_stop(a, base as int, bl, list, pos as int, pos + len) == read_stop(
                    a,
                    base as int,
                    bl,
                    list,
                    pos + done,
                    pos + len,
                ),
            decreases len - done,
        {
            proof {
                lemma_in_block(bl, i as int, pos + done);
                if i >= n {
                    lemma_mul_inequality(n as int, i as int, bl);
                }
            }
            let rest: usize = block_len - skip;
            let part: usize = if rest < len - done {
                rest
            } else {
                len - done
            };
            let block: usize = self.block_list[i].block_index;
            let at: Option<usize> = locate(base, block, block_len, skip);
            let at: usize = match at {
                Some(at) => at,
                None => {
                    proof {
                        assert(base + list[i as int].block_index * bl + bl <= usize::MAX || !within);
                    }
                    return (result, make_error(Error::OutOfBound));
                },
            };
            let ghost before = *data;
            let mut piece = match data.load(at, part) {
                Ok(piece) => piece,
                Err(e) => {
                    proof {
                        if within {
                            assert(base + list[i as int].block_index * bl + bl
                                <= a.bytes().len());
                            assert(!all_readable(before, at as int, part as int));
                            let x = choose|x: int|
                                at <= x < at + part && !#[trigger] before.readable(x);
                            let t = pos + done + (x - at);
                            lemma_in_block(bl, i as int, t);
                            assert(base + place(list, bl, t) == x);
                            assert(!a.readable(x));
                            assert(!file_readable(
                                a,
                                base as int,
                                bl,
                                list,
                                pos + done,
                                pos + done + part,
                            ));
                        }
                    }
                    return (result, make_error(e));
                },
            };
            proof {
                let fb = file_bytes(a.bytes(), base as int, bl, list);
                if within {
                    assert(base + list[i as int].block_index * bl + bl <= a.bytes().len());
                    assert forall|t: int| pos + done <= t < pos + done + part implies {
                        &&& fb[t] == piece@[t - pos - done]
                        &&& a.readable(base + #[trigger] place(list, bl, t))
                    } by {
                        lemma_in_block(bl, i as int, t);
                        assert(base + place(list, bl, t) == at + (t - pos - done));
                        assert(before.readable(base + place(list, bl, t)));
                    }
                    assert(result@ + piece@ =~= fb.subrange(pos as int, pos + done + part)) by {
                        assert forall|x: int| 0 <= x < done + part implies (result@ + piece@)[x]
                            == fb[pos + x] by {
                            if x >= done {
                                let t = pos + x;
                                let q = place(list, bl, t);
                            }
                        }
                    }
                }
            }
            proof {
                if within {
                    assert(file_readable(
                        a,
                        base as int,
                        bl,
                        list,
                        pos + done,
                        pos + done + part,
                    ));
                }
            }
            result.append(&mut piece);
            done = done + part;
            i = i + 1;
            skip = 0;
            proof {
                lemma_mul_is_distributive_add_other_way(bl, i - 1, 1);
            }
        }
        (result, Ok(()))
    }

    /// Reads `len` bytes of the file at position `pos`. The data area starts at `base`.
    pub fn load<D: RandomAccessFile>(
        &self,
        data: &mut D,
        base: usize,
        block_len: usize,
        pos: usize,
        len: usize,
    ) -> (r: Result<Vec<u8>, Error>)
        requires
            old(data).inv(),
            block_len > 0,
        ensures
            final(data).inv(),
            same_file(*old(data), *final(data)),
            !self.covers(block_len as int, pos as int, len as int) ==> r == Err::<Vec<u8>, Error>(
                Error::OutOfBound,
            ),
            self.covers(block_len as int, pos as int, len as int) && blocks_within(
                self.block_list@,
                base as int,
                block_len as int,
                old(data).bytes().len() as int,
            ) ==> match r {
                Ok(v) => v@ == file_bytes(
                    old(data).bytes(),
                    base as int,
                    block_len as int,
                    self.block_list@,
                ).subrange(pos as int, pos + len) && file_readable(
                    *old(data),
                    base as int,
                    block_len as int,
                    self.block_list@,
                    pos as int,
                    pos + len,
                ),
                Err(e) => e == Error::HashMismatch && !file_readable(
                    *old(data),
                    base as int,
                    block_len as int,
                    self.block_list@,
                    pos as int,
                    pos + len,
                ),
            },
            r matches Ok(v) ==> v@.len() == len,
    {
        let (v, r) = self.load_blocks(data, base, block_len, pos, len);
        proof {
            if self.covers(block_len as int, pos as int, len as int) {
                lemma_read_stop(
                    *old(data),
                    base as int,
                    block_len as int,
                    self.block_list@,
                    pos as int,
                    pos + len,
                );
            }
        }
        match r {
            Ok(_) => Ok(v),
            Err(e) => Err(e),
        }
    }

    /// Reads bytes of the file at position `pos` into `buf`. Where a block is not intact, the bytes
    /// before it have been read.
    pub fn read<D: RandomAccessFile>(
        &self,
        data: &mut D,
        base: usize,
        block_len: usize,
        pos: usize,
        buf: &mut [u8],
    ) -> (r: Result<(), Error>)
        requires
            old(data).inv(),
            block_len > 0,
        ensures
            final(data).inv(),
            same_file(*old(data), *final(data)),
            !self.covers(block_len as int, pos as int, old(buf)@.len() as int) ==> r == Err::<(), Error>(
                Error::OutOfBound,
            ) && final(buf)@ == old(buf)@,
            final(buf)@.len() == old(buf)@.len(),
            self.covers(block_len as int, pos as int, old(buf)@.len() as int) && blocks_within(
                self.block_list@,
                base as int,
                block_len as int,
                old(data).bytes().len() as int,
            ) ==> ({
                let stop = read_stop(
                    *old(data),
                    base as int,
                    block_len as int,
                    self.block_list@,
                    pos as int,
                    pos + old(buf)@.len(),
                );
                &&& final(buf)@ == file_bytes(
                    old(data).bytes(),
                    base as int,
                    block_len as int,
                    self.block_list@,
                ).subrange(pos as int, stop) + old(buf)@.skip(stop - pos)
                &&& r == if stop == pos + old(buf)@.len() {
                    Ok::<(), Error>(())
                } else {
                    Err(Error::HashMismatch)
                }
            }),
    {
        let n: usize = buf.len();
        let (v, r) = self.load_blocks(data, base, block_len, pos, n);
        proof {
            if self.covers(block_len as int, pos as int, n as int) {
                lemma_read_stop(
                    *old(data),
                    base as int,
                    block_len as int,
                    self.block_list@,
                    pos as int,
                    pos + n,
                );
            }
        }
        copy_front(buf, &v);
        r
    }

    /// Writes the bytes of `buf` at position `pos` of the file.
    pub fn write<D: RandomAccessFile>(
        &self,
        data: &mut D,
        base: usize,
        block_len: usize,
        pos: usize,
        buf: &[u8],
    ) -> (r: Result<(), Error>)
        requires
            old(data).inv(),
            block_len > 0,
        ensures
            final(data).inv(),
            final(data).bytes().len() == old(data).bytes().len(),
            !self.covers(block_len as int, pos as int, buf@.len() as int) ==> r == Err::<(), Error>(
                Error::OutOfBound,
            ) && same_file(*old(data), *final(data)),
            self.covers(block_len as int, pos as int, buf@.len() as int)
                && self.blocks().no_duplicates() && blocks_within(
                self.block_list@,
                base as int,
                block_len as int,
                old(data).bytes().len() as int,
            ) ==> r == Ok::<(), Error>(()) && file_written(
                *old(data),
                *final(data),
                base as int,
                block_len as int,
                self.block_list@,
                pos as int,
                buf@,
            ),
            r matches Err(e) ==> e == Error::OutOfBound,
    {
        let len: usize = buf.len();
        if !self.holds(block_len, pos, len) {
            return make_error(Error::OutOfBound);
        }
        let n: usize = self.block_list.len();
        let _total: usize = data.len();
        let ghost list = self.block_list@;
        let ghost a = *data;
        let ghost bl = block_len as int;
        let ghost good = indices(list).no_duplicates() && blocks_within(
            list,
            base as int,
            bl,
            a.bytes().len() as int,
        );
        let mut i: usize = pos / block_len;
        let mut skip: usize = pos % block_len;
        let mut done: usize = 0;
        proof {
            lemma_fundamental_div_mod(pos as int, bl);
            lemma_mod_bound(pos as int, bl);
            lemma_mul_is_commutative(i as int, bl);
            let fb = file_bytes(a.bytes(), base as int, bl, list);
            assert(buf@.take(0) =~= Seq::empty());
            assert(spliced(fb, pos as int, buf@.take(0)) =~= fb);
        }
        while done < len
            invariant
                data.inv(),
                a == *old(data),
                data.bytes().len() == a.bytes().len(),
                bl == block_len > 0,
                a.bytes().len() <= usize::MAX,
                self.covers(bl, pos as int, len as int),
                n == self.block_list@.len(),
                list == self.block_list@,
                len == buf@.len(),
                good == (indices(list).no_duplicates() && blocks_within(
                    list,
                    base as int,
                    bl,
                    a.bytes().len() as int,
                )),
                done <= len,
                pos + len <= n * bl,
                skip < block_len,
                done < len ==> i * bl + skip == pos + done,
                good ==> file_written(
                    a,
                    *data,
                    base as int,
                    bl,
                    list,
                    pos as int,
                    buf@.take(done as int),
                ),
            decreases len - done,
        {
            proof {
                if i >= n {
                    lemma_mul_inequality(n as int, i as int, bl);
                }
            }
            let rest: usize = block_len - skip;
            let part: usize = if rest < len - done {
                rest
            } else {
                len - done
            };
            let block: usize = self.block_list[i].block_index;
            let at: Option<usize> = locate(base, block, block_len, skip);
            let at: usize = match at {
                Some(at) => at,
                None => {
                    proof {
                        if good {
                            assert(base + list[i as int].block_index * bl + bl <= usize::MAX);
                        }
                    }
                    return make_error(Error::OutOfBound);
                },
            };
            let ghost before = *data;
            if let Err(e) = data.write(at, vstd::slice::slice_subrange(buf, done, done + part)) {
                proof {
                    if good {
                        assert(base + list[i as int].block_index * bl + bl <= a.bytes().len());
                    }
                }
                return make_error(e);
            }
            proof {
                if good {
                    lemma_write_step(
                        a,
                        before,
                        *data,
                        base as int,
                        bl,
                        list,
                        pos as int,
                        buf@,
                        i as int,
                        pos + done,
                        pos + done + part,
                    );
                }
            }
            done = done + part;
            i = i + 1;
            skip = 0;
            proof {
                lemma_mul_is_distributive_add_other_way(bl, i - 1, 1);
            }
        }
        assert(buf@.take(len as int) =~= buf@);
        Ok(())
    }
}

/// The position of a byte of a block, where it is a position at all.
fn locate(base: usize, block: usize, block_len: usize, skip: usize) -> (r: Option<usize>)
    ensures
        match r {
            Some(p) => p == base + block * block_len + skip,
            None => base + block * block_len + skip > usize::MAX,
        },
{
    proof {
        lemma_mul_nonnegative(block as int, block_len as int);
    }
    match block.checked_mul(block_len) {
        None => None,
        Some(x) => match x.checked_add(base) {
            None => None,
            Some(y) => y.checked_add(skip),
        },
    }
}

/// What cutting the list `whole` behind its first `k` blocks gives.
spec fn is_cut<T: Content>(a: T, b: T, whole: Seq<Span>, k: int, c: Seq<Span>, d: Seq<Span>) -> bool {
    &&& chain(b, c)
    &&& chain(b, d)
    &&& lists_apart(c, d)
    &&& inside(c, whole)
    &&& inside(d, whole)
    &&& d.len() > 0
    &&& d[0].start == maps(whole)[k].block_index
    &&& maps(c) == maps(whole).take(k)
    &&& blocks(c) + blocks(d) == blocks(whole)
    &&& kept_off(a, b, whole)
    &&& head_read(a) is Ok ==> head_read(b) == head_read(a)
}

/// Whether `whole` is a list of more than `k` blocks in a table.
spec fn can_cut<T: Content>(t: T, whole: Seq<Span>, k: int) -> bool {
    &&& chain(t, whole)
    &&& crate::fat_list::block_count(t) < INDEX_END
    &&& 0 < k < maps(whole).len()
}

/// Cuts a list between two of its runs.
fn disconnect<T: RandomAccessFile>(
    table: &mut T,
    tail_index: usize,
    head_index: usize,
    Ghost(whole): Ghost<Seq<Span>>,
    Ghost(k): Ghost<int>,
) -> (r: Result<Ghost<(Seq<Span>, Seq<Span>)>, Error>)
    requires
        old(table).inv(),
        tail_index + 1 < INDEX_END,
        head_index + 1 < INDEX_END,
    ensures
        final(table).inv(),
        final(table).bytes().len() == old(table).bytes().len(),
        can_cut(*old(table), whole, k) && maps(whole)[k - 1].node_start_index == tail_index
            && maps(whole)[k].node_start_index == head_index && maps(whole)[k].block_index
            == head_index ==> (r matches Ok(p) && is_cut(
            *old(table),
            *final(table),
            whole,
            k,
            p@.0,
            p@.1,
        ) && p@.1.last().start == maps(whole).last().node_start_index),
{
    let ghost a = *old(table);
    let ghost can = can_cut(a, whole, k) && maps(whole)[k - 1].node_start_index == tail_index
        && maps(whole)[k].node_start_index == head_index && maps(whole)[k].block_index
        == head_index;
    let ghost total = block_count(a);
    let ghost mut i: int = 0;
    proof {
        lemma_node_read_bounds(a, tail_index as int);
        if can {
            i = lemma_locate(whole, k);
            assert(whole.take(0) =~= Seq::empty());
            lemma_cut_spread(whole, i, total);
            lemma_last_run(whole.take(i), total);
            assert(maps(whole).take(k) =~= maps(whole.take(i)));
            assert(maps(whole.take(i)).last() == maps(whole)[k - 1]);
            assert(whole.take(i).last() == whole[i - 1]);
            assert(node_read(a, tail_index as int) == Ok::<Node, Error>(node_of(whole, i - 1)));
            assert(node_read(a, head_index as int) == Ok::<Node, Error>(node_of(whole, i)));
            assert(whole[i - 1].start + whole[i - 1].size <= total);
            assert(whole[i].start + whole[i].size <= total);
            assert(whole[i - 1].apart(whole[i]));
            lemma_last_run(whole, total);
        }
    }
    let tail = match get_node(table, tail_index) {
        Ok(node) => node,
        Err(e) => {
            return make_error(e);
        },
    };
    proof {
        lemma_same_at(a, *table);
    }
    if let Err(e) = set_node(table, tail_index, Node { next: None, ..tail }) {
        return make_error(e);
    }
    let ghost m = *table;
    proof {
        lemma_node_read_bounds(m, head_index as int);
        if can {
            lemma_node_survives(
                a,
                m,
                whole[i],
                node_of(whole, i),
                tail_index as int,
                tail_index + tail.size,
            );
        }
    }
    let head = match get_node(table, head_index) {
        Ok(node) => node,
        Err(e) => {
            return make_error(e);
        },
    };
    proof {
        lemma_same_at(m, *table);
    }
    if let Err(e) = set_node(table, head_index, Node { prev: None, ..head }) {
        return make_error(e);
    }
    proof {
        if can {
            lemma_two_writes(a, m, *table, whole[i - 1], whole[i]);
            lemma_node_survives(
                m,
                *table,
                whole[i - 1],
                cut_node(whole, i - 1, i - 1),
                head_index as int,
                head_index + head.size,
            );
            assert(cut_node(whole, i - 1, i) == Node { prev: None, ..node_of(whole, i) });
            lemma_cut(a, *table, whole, i - 1);
            assert(whole.skip(i).last() == whole.last());
        }
    }
    Ok(Ghost((whole.take(i), whole.skip(i))))
}

/// Cuts a list within one of its runs.
fn split_off<T: RandomAccessFile>(
    table: &mut T,
    tail_index: usize,
    head_index: usize,
    Ghost(whole): Ghost<Seq<Span>>,
    Ghost(k): Ghost<int>,
) -> (r: Result<Ghost<(Seq<Span>, Seq<Span>)>, Error>)
    requires
        old(table).inv(),
        tail_index + 1 < INDEX_END,
        head_index + 1 < INDEX_END,
    ensures
        final(table).inv(),
        final(table).bytes().len() == old(table).bytes().len(),
        can_cut(*old(table), whole, k) && maps(whole)[k].node_start_index == tail_index
            && maps(whole)[k].block_index == head_index && head_index != tail_index ==> (
        r matches Ok(p) && is_cut(*old(table), *final(table), whole, k, p@.0, p@.1)
            && p@.1.last().start == (if maps(whole).last().node_start_index == tail_index {
            head_index
        } else {
            maps(whole).last().node_start_index
        })),
{
    let ghost a = *old(table);
    let ghost can = can_cut(a, whole, k) && maps(whole)[k].node_start_index == tail_index
        && maps(whole)[k].block_index == head_index && head_index != tail_index;
    let ghost total = block_count(a);
    let ghost mut i: int = 0;
    let ghost mut off: int = 0;
    proof {
        lemma_node_read_bounds(a, tail_index as int);
        if can {
            i = lemma_locate(whole, k);
            off = k - maps(whole.take(i)).len();
            assert(node_read(a, tail_index as int) == Ok::<Node, Error>(node_of(whole, i)));
            assert(whole[i].start + whole[i].size <= total);
            lemma_last_run(whole, total);
        }
    }
    let tail = match get_node(table, tail_index) {
        Ok(node) => node,
        Err(e) => {
            return make_error(e);
        },
    };
    proof {
        lemma_same_at(a, *table);
    }
    if head_index <= tail_index || head_index - tail_index >= tail.size {
        return make_error(Error::BrokenFat);
    }
    let kept: usize = head_index - tail_index;
    if let Err(e) = set_node(table, tail_index, Node { size: kept, next: None, ..tail }) {
        return make_error(e);
    }
    let ghost m1 = *table;
    if let Err(e) = set_node(
        table,
        head_index,
        Node { prev: None, next: tail.next, size: tail.size - kept },
    ) {
        return make_error(e);
    }
    let ghost m2 = *table;
    if let Some(next) = tail.next {
        proof {
            lemma_node_read_bounds(m2, next as int);
            if can {
                let s = whole[i + 1];
                assert(node_read(a, next as int) == Ok::<Node, Error>(node_of(whole, i + 1)));
                assert(whole[i].apart(s));
                assert(s.start + s.size <= total);
                lemma_node_survives(
                    a,
                    m1,
                    s,
                    node_of(whole, i + 1),
                    tail_index as int,
                    tail_index + kept,
                );
                lemma_node_survives(
                    m1,
                    m2,
                    s,
                    node_of(whole, i + 1),
                    head_index as int,
                    tail_index + tail.size,
                );
            }
        }
        let next_node = match get_node(table, next) {
            Ok(node) => node,
            Err(e) => {
                return make_error(e);
            },
        };
        if next_node.prev != Some(tail_index) {
            return make_error(Error::BrokenFat);
        }
        proof {
            lemma_same_at(m2, *table);
        }
        if let Err(e) = set_node(table, next, Node { prev: Some(head_index), ..next_node }) {
            return make_error(e);
        }
    }
    proof {
        if can {
            lemma_split_steps(a, m1, m2, *table, whole, i, off);
            lemma_split_spread(whole, i, off, total);
            let l = left_part(whole, i, off);
            let r = right_part(whole, i, off);
            let ls = Span { start: whole[i].start, size: off as usize };
            assert(l.drop_last() =~= whole.take(i));
            assert(l.last() == ls);
            assert(maps(l) =~= maps(whole).take(k));
            assert(r[0].start == head_index);
            if i + 1 < whole.len() {
                assert(r.last() == whole.last());
                assert(whole[i].apart(whole[whole.len() - 1]));
                assert(whole[whole.len() - 1].size >= 1);
            }
        }
    }
    Ok(Ghost((left_part(whole, i, off), right_part(whole, i, off))))
}

/// The first block of a list starts its first run.
proof fn lemma_first_block(c: Seq<Span>, n: int)
    requires
        spread(c, n),
        n <= usize::MAX,
        maps(c).len() > 0,
    ensures
        c.len() > 0,
        maps(c)[0].block_index == c[0].start,
{
    let i = lemma_locate(c, 0);
    if i > 0 {
        assert(c.take(i) =~= seq![c[0]] + c.subrange(1, i));
        lemma_maps_concat(seq![c[0]], c.subrange(1, i));
        lemma_maps_single(c[0]);
        assert(c[0].size >= 1);
    } else {
        assert(c.take(0) =~= Seq::empty());
    }
}

/// The last block of a list is in its last run.
proof fn lemma_last_run(c: Seq<Span>, n: int)
    requires
        spread(c, n),
        maps(c).len() > 0,
    ensures
        c.len() > 0,
        maps(c).last().node_start_index == c.last().start,
{
    assert(c[c.len() - 1].size >= 1);
    assert(maps(c).last() == c.last().maps().last());
}

/// Creating, deleting or resizing a file touches the blocks of that file and the free blocks
/// only: a file that has none of them is still open with the same blocks.
pub proof fn law_other_files_are_kept<T: RandomAccessFile>(
    a: Fat<T>,
    b: Fat<T>,
    touched: Seq<Span>,
    file: FatFile,
)
    requires
        file.wf(a),
        b.wf(),
        others_kept(a, b, touched),
        inside(b.free_list(), touched),
        lists_apart(touched, file.runs@),
    ensures
        file.wf(b),
{
    lemma_chain_kept(a.table, b.table, touched, file.runs@);
    lemma_inside_apart(b.free_list(), touched, file.runs@);
    lemma_apart_symmetric(b.free_list(), file.runs@);
}

/// Deleting a file right after its creation makes the same blocks free again, in the same order.
pub proof fn law_delete_undoes_create<T: RandomAccessFile>(
    a: Fat<T>,
    b: Fat<T>,
    c: Fat<T>,
    file: FatFile,
)
    requires
        a.wf(),
        file.wf(b),
        file.blocks() + blocks(b.free_list()) == blocks(a.free_list()),
        c.wf(),
        c.free_list() == file.runs@ + b.free_list(),
    ensures
        blocks(c.free_list()) == blocks(a.free_list()),
        c.free_count() == a.free_count(),
{
    lemma_maps_concat(file.runs@, b.free_list());
    assert(blocks(file.runs@) == file.blocks());
    assert(blocks(c.free_list()).len() == blocks(a.free_list()).len());
}

/// Growing a file and shrinking it back gives it its blocks back, and makes the same blocks free
/// again, in the same order.
pub proof fn law_resize_back<T: RandomAccessFile>(
    a: Fat<T>,
    b: Fat<T>,
    c: Fat<T>,
    fa: FatFile,
    fb: FatFile,
    fc: FatFile,
)
    requires
        fb.blocks() + blocks(b.free_list()) == fa.blocks() + blocks(a.free_list()),
        fc.blocks() + blocks(c.free_list()) == fb.blocks() + blocks(b.free_list()),
        fc.blocks().len() == fa.blocks().len(),
    ensures
        fc.blocks() == fa.blocks(),
        blocks(c.free_list()) == blocks(a.free_list()),
{
    let x = fa.blocks() + blocks(a.free_list());
    let n = fa.blocks().len() as int;
    assert(x.take(n) =~= fa.blocks());
    assert(x.skip(n) =~= blocks(a.free_list()));
    let y = fc.blocks() + blocks(c.free_list());
    assert(y.take(n) =~= fc.blocks());
    assert(y.skip(n) =~= blocks(c.free_list()));
}

/// What was written to a file is read back from it, and a file that has other blocks reads as
/// before.
pub proof fn law_file_reads_what_was_written<D: Content>(
    a: D,
    b: D,
    base: int,
    block_len: int,
    list: Seq<BlockMap>,
    other: Seq<BlockMap>,
    pos: int,
    buf: Seq<u8>,
)
    requires
        0 <= base,
        block_len > 0,
        0 <= pos,
        pos + buf.len() <= list.len() * block_len,
        file_written(a, b, base, block_len, list, pos, buf),
        blocks_within(other, base, block_len, a.bytes().len() as int),
        forall|x: int, y: int|
            0 <= x < list.len() && 0 <= y < other.len() ==> (#[trigger] list[x]).block_index != (
            #[trigger] other[y]).block_index,
    ensures
        file_bytes(b.bytes(), base, block_len, list).subrange(pos, pos + buf.len()) == buf,
        file_bytes(b.bytes(), base, block_len, other) == file_bytes(
            a.bytes(),
            base,
            block_len,
            other,
        ),
{
    let fb = file_bytes(b.bytes(), base, block_len, list);
    assert(fb.subrange(pos, pos + buf.len()) =~= buf);
    let oa = file_bytes(a.bytes(), base, block_len, other);
    let ob = file_bytes(b.bytes(), base, block_len, other);
    assert forall|t: int| 0 <= t < ob.len() implies ob[t] == oa[t] by {
        lemma_block_of(block_len, other.len() as int, t);
        let k = t / block_len;
        let j = base + place(other, block_len, t);
        assert(base + other[k].block_index * block_len + block_len <= a.bytes().len());
        lemma_mul_nonnegative(other[k].block_index as int, block_len);
        if in_blocks(list, base, block_len, j) {
            let x = choose|x: int|
                0 <= x < list.len() && base + (#[trigger] list[x]).block_index * block_len <= j
                    < base + list[x].block_index * block_len + block_len;
            assert(list[x].block_index != other[k].block_index);
            lemma_blocks_apart(
                block_len,
                list[x].block_index as int,
                other[k].block_index as int,
            );
        }
        assert(b.bytes()[j] == a.bytes()[j]);
    }
    assert(ob =~= oa);
}

} // verus!
