use crate::error::Error;
use crate::fat_table::Node;
use crate::random_access_file::Content;
use vstd::prelude::*;

verus! {

use crate::fat_table::{
    at, head_read, kept_but, lemma_node_read_bounds, lemma_same_at, node_read,
};
use crate::random_access_file::same_file;

/// A run of consecutive blocks.
#[derive(Clone, Copy, PartialEq, Eq, Structural, Debug)]
pub struct Span {
    pub start: usize,
    pub size: usize,
}

/// Where a block of a file is, and where the node starts that it belongs to.
#[derive(Clone, Copy, PartialEq, Eq, Structural, Debug)]
pub struct BlockMap {
    pub block_index: usize,
    pub node_start_index: usize,
}

impl Span {
    /// Whether block `b` is in the run.
    pub open spec fn has(self, b: int) -> bool {
        self.start <= b < self.start + self.size
    }

    /// Whether the two runs have no block in common.
    pub open spec fn apart(self, other: Span) -> bool {
        self.start + self.size <= other.start || other.start + other.size <= self.start
    }

    /// The blocks of the run.
    pub open spec fn maps(self) -> Seq<BlockMap> {
        Seq::new(
            self.size as nat,
            |i: int|
                BlockMap { block_index: (self.start + i) as usize, node_start_index: self.start },
        )
    }
}

/// The blocks of a list of runs, in order.
pub open spec fn maps(c: Seq<Span>) -> Seq<BlockMap>
    decreases c.len(),
{
    if c.len() == 0 {
        Seq::empty()
    } else {
        maps(c.drop_last()) + c.last().maps()
    }
}

/// The block indices of a list of runs, in order.
pub open spec fn blocks(c: Seq<Span>) -> Seq<int> {
    indices(maps(c))
}

/// The block indices alone.
pub open spec fn indices(m: Seq<BlockMap>) -> Seq<int> {
    Seq::new(m.len(), |i: int| m[i].block_index as int)
}

/// The node that run `i` of the list must have in the table.
pub open spec fn node_of(c: Seq<Span>, i: int) -> Node {
    Node {
        size: c[i].size,
        prev: if i == 0 {
            None
        } else {
            Some(c[i - 1].start)
        },
        next: if i == c.len() - 1 {
            None
        } else {
            Some(c[i + 1].start)
        },
    }
}

/// The runs of `c` are linked in the table, in this order, from a first one to a last one.
pub open spec fn linked<T: Content>(t: T, c: Seq<Span>) -> bool {
    forall|i: int|
        0 <= i < c.len() ==> node_read(t, c[i].start as int) == Ok::<Node, Error>(#[trigger] node_of(c, i),
        )
}

/// The number of blocks that the table has entries for.
pub open spec fn block_count<T: Content>(t: T) -> int {
    t.bytes().len() / 8 - 1
}

/// No two runs of the list share a block, and none is empty or ends after block `n`.
pub open spec fn spread(c: Seq<Span>, n: int) -> bool {
    &&& forall|i: int| 0 <= i < c.len() ==> (#[trigger] c[i]).size >= 1 && c[i].start + c[i].size <= n
    &&& forall|i: int, j: int| 0 <= i < j < c.len() ==> (#[trigger] c[i]).apart(#[trigger] c[j])
}

/// `c` is a list of runs that the table holds, and its runs are apart.
pub open spec fn chain<T: Content>(t: T, c: Seq<Span>) -> bool {
    linked(t, c) && spread(c, block_count(t))
}

/// No run of one list shares a block with a run of the other.
pub open spec fn lists_apart(c: Seq<Span>, d: Seq<Span>) -> bool {
    forall|i: int, j: int|
        0 <= i < c.len() && 0 <= j < d.len() ==> (#[trigger] c[i]).apart(#[trigger] d[j])
}

/// Whether block `b` is in a run of the list.
pub open spec fn covers(c: Seq<Span>, b: int) -> bool {
    exists|i: int| 0 <= i < c.len() && (#[trigger] c[i]).has(b)
}

/// In `b` every entry of `a` is kept but entry 0 and those of the blocks of `c`.
pub open spec fn kept_off<T: Content>(a: T, b: T, c: Seq<Span>) -> bool {
    &&& b.bytes().len() == a.bytes().len()
    &&& forall|j: int|
        j >= 1 && !covers(c, j - 1) && at(a, j) is Some ==> #[trigger] at(b, j) == at(a, j)
}

/// A node whose entries are kept is still there.
pub proof fn lemma_node_kept<T: Content>(a: T, b: T, s: Span, node: Node)
    requires
        node_read(a, s.start as int) == Ok::<Node, Error>(node),
        node.size == s.size,
        forall|j: int|
            s.start < j <= s.start + s.size && at(a, j) is Some ==> #[trigger] at(b, j) == at(a, j),
    ensures
        node_read(b, s.start as int) == Ok::<Node, Error>(node),
{
    reveal(node_read);
    let i = s.start as int;
    lemma_node_read_bounds(a, i);
    assert(at(b, i + 1) == at(a, i + 1));
    if node.size != 1 {
        let e = at(a, i + 1)->Some_0;
        assert(e.v_flag);
        assert(at(b, i + 2) == at(a, i + 2));
        let x = at(a, i + 2)->Some_0;
        assert(x.v_index == i + s.size);
        assert(at(b, x.v_index as int) == at(a, x.v_index as int));
    } else {
        let e = at(a, i + 1)->Some_0;
        if e.v_flag {
            let x = at(a, i + 2)->Some_0;
            assert(x.v_index == i + 1);
            assert(at(a, i + 1) == Some(x));
            assert(x.v_flag);
            assert(false);
        }
    }
}

/// A list is kept where its blocks are.
pub proof fn lemma_chain_kept<T: Content>(a: T, b: T, c: Seq<Span>, d: Seq<Span>)
    requires
        chain(a, d),
        lists_apart(c, d),
        kept_off(a, b, c),
    ensures
        chain(b, d),
{
    assert forall|i: int| 0 <= i < d.len() implies node_read(b, d[i].start as int)
        == Ok::<Node, Error>(#[trigger] node_of(d, i)) by {
        let s = d[i];
        assert(node_read(a, s.start as int) == Ok::<Node, Error>(node_of(d, i)));
        assert forall|j: int|
            s.start < j <= s.start + s.size && at(a, j) is Some implies #[trigger] at(b, j) == at(
            a,
            j,
        ) by {
            if covers(c, j - 1) {
                let k = choose|k: int| 0 <= k < c.len() && (#[trigger] c[k]).has(j - 1);
                assert(c[k].apart(d[i]));
            }
        }
        lemma_node_kept(a, b, s, node_of(d, i));
    }
}

pub proof fn lemma_maps_len_step(c: Seq<Span>, i: int)
    requires
        0 <= i < c.len(),
    ensures
        maps(c.take(i + 1)) == maps(c.take(i)) + c[i].maps(),
{
    assert(c.take(i + 1).drop_last() =~= c.take(i));
    assert(c.take(i + 1).last() == c[i]);
}

/// The blocks of two lists, one after the other.
pub proof fn lemma_maps_concat(c: Seq<Span>, d: Seq<Span>)
    ensures
        maps(c + d) == maps(c) + maps(d),
        blocks(c + d) == blocks(c) + blocks(d),
    decreases d.len(),
{
    if d.len() == 0 {
        assert(c + d =~= c);
        assert(maps(c) + maps(d) =~= maps(c));
    } else {
        lemma_maps_concat(c, d.drop_last());
        assert((c + d).drop_last() =~= c + d.drop_last());
        assert((c + d).last() == d.last());
        assert(maps(c + d) =~= maps(c) + maps(d));
    }
    assert(blocks(c + d) =~= blocks(c) + blocks(d));
}

/// Cutting a run in two does not change its blocks.
pub proof fn lemma_maps_cut(s: Span, k: int)
    requires
        0 < k < s.size,
        s.start + s.size <= usize::MAX,
    ensures
        indices(s.maps()) == indices(Span { start: s.start, size: k as usize }.maps()) + indices(
            Span { start: (s.start + k) as usize, size: (s.size - k) as usize }.maps(),
        ),
{
    assert(indices(s.maps()) =~= indices(Span { start: s.start, size: k as usize }.maps())
        + indices(Span { start: (s.start + k) as usize, size: (s.size - k) as usize }.maps()));
}

pub proof fn lemma_maps_single(s: Span)
    ensures
        maps(seq![s]) == s.maps(),
        blocks(seq![s]) == indices(s.maps()),
{
    assert(seq![s].drop_last() =~= Seq::<Span>::empty());
    assert(maps(Seq::<Span>::empty()) =~= Seq::<BlockMap>::empty());
    assert(maps(seq![s]) =~= s.maps());
}

/// Where block `k` of a list is: in which run, and how far into it.
pub proof fn lemma_locate(c: Seq<Span>, k: int) -> (i: int)
    requires
        0 <= k < maps(c).len(),
        forall|i: int| 0 <= i < c.len() ==> (#[trigger] c[i]).start + c[i].size <= usize::MAX,
    ensures
        0 <= i < c.len(),
        maps(c.take(i)).len() <= k < maps(c.take(i)).len() + c[i].size,
        maps(c)[k].node_start_index == c[i].start,
        maps(c)[k].block_index == c[i].start + (k - maps(c.take(i)).len()),
        maps(c) == maps(c.take(i)) + c[i].maps() + maps(c.skip(i + 1)),
    decreases c.len(),
{
    let d = c.drop_last();
    if k < maps(d).len() {
        let i = lemma_locate(d, k);
        assert(d.take(i) =~= c.take(i));
        assert(d.skip(i + 1).push(c.last()) =~= c.skip(i + 1));
        assert(c.skip(i + 1).drop_last() =~= d.skip(i + 1));
        assert(maps(c) =~= maps(c.take(i)) + c[i].maps() + maps(c.skip(i + 1)));
        i
    } else {
        let i = c.len() - 1;
        assert(c.take(i) =~= d);
        assert(c.skip(i + 1) =~= Seq::<Span>::empty());
        assert(maps(c) =~= maps(c.take(i)) + c[i].maps() + maps(c.skip(i + 1)));
        i
    }
}

/// A block of the list is in one of its runs.
pub proof fn lemma_maps_covered(c: Seq<Span>, k: int)
    requires
        0 <= k < maps(c).len(),
        forall|i: int| 0 <= i < c.len() ==> (#[trigger] c[i]).start + c[i].size <= usize::MAX,
    ensures
        covers(c, maps(c)[k].block_index as int),
{
    let i = lemma_locate(c, k);
    assert(c[i].has(maps(c)[k].block_index as int));
}

/// No block occurs twice in a list of runs that are apart.
pub proof fn lemma_blocks_distinct(c: Seq<Span>, n: int)
    requires
        spread(c, n),
        n <= usize::MAX,
    ensures
        blocks(c).no_duplicates(),
        forall|k: int| 0 <= k < blocks(c).len() ==> 0 <= #[trigger] blocks(c)[k] < n,
{
    let b = blocks(c);
    assert forall|k: int| 0 <= k < b.len() implies 0 <= #[trigger] b[k] < n by {
        let i = lemma_locate(c, k);
        assert(c[i].start + c[i].size <= n);
    }
    assert forall|k: int, l: int| 0 <= k < b.len() && 0 <= l < b.len() && k != l implies b[k]
        != b[l] by {
        let i = lemma_locate(c, k);
        let j = lemma_locate(c, l);
        if i < j {
            assert(c[i].apart(c[j]));
        } else if j < i {
            assert(c[j].apart(c[i]));
        }
    }
}

/// A list of runs that are apart has no more blocks than there are.
pub proof fn lemma_blocks_bounded(c: Seq<Span>, n: int)
    requires
        spread(c, n),
        0 <= n <= usize::MAX,
    ensures
        maps(c).len() <= n,
{
    lemma_blocks_distinct(c, n);
    let b = blocks(c);
    b.unique_seq_to_set();
    vstd::set_lib::lemma_int_range(0, n);
    vstd::set_lib::lemma_len_subset(b.to_set(), vstd::set_lib::set_int_range(0, n));
}

/// A list of runs that are not empty has no more runs than blocks.
pub proof fn lemma_runs_bounded(c: Seq<Span>)
    requires
        forall|i: int| 0 <= i < c.len() ==> (#[trigger] c[i]).size >= 1,
    ensures
        c.len() <= maps(c).len(),
    decreases c.len(),
{
    if c.len() > 0 {
        let d = c.drop_last();
        assert forall|i: int| 0 <= i < d.len() implies (#[trigger] d[i]).size >= 1 by {
            assert(d[i] == c[i]);
        }
        lemma_runs_bounded(d);
    }
}

/// The free list of the table starts with the first run of `c`.
pub open spec fn head_is<T: Content>(t: T, c: Seq<Span>) -> bool {
    head_read(t) == Ok::<Option<usize>, Error>(
        if c.len() == 0 {
            None
        } else {
            Some(c[0].start)
        },
    )
}

/// `c` is the free list of the table.
pub open spec fn free_list<T: Content>(t: T, c: Seq<Span>) -> bool {
    chain(t, c) && head_is(t, c)
}

/// Every run of `c` is part of a run of `d`.
pub open spec fn inside(c: Seq<Span>, d: Seq<Span>) -> bool {
    forall|i: int| 0 <= i < c.len() ==> part_of(#[trigger] c[i], d)
}

/// The run is part of a run of `d`.
pub open spec fn part_of(s: Span, d: Seq<Span>) -> bool {
    exists|j: int|
        0 <= j < d.len() && (#[trigger] d[j]).start <= s.start && s.start + s.size <= d[j].start
            + d[j].size
}

pub proof fn lemma_inside_apart(c: Seq<Span>, d: Seq<Span>, e: Seq<Span>)
    requires
        inside(c, d),
        lists_apart(d, e),
    ensures
        lists_apart(c, e),
{
    assert forall|i: int, j: int| 0 <= i < c.len() && 0 <= j < e.len() implies (
    #[trigger] c[i]).apart(#[trigger] e[j]) by {
        assert(part_of(c[i], d));
        let k = choose|k: int|
            0 <= k < d.len() && (#[trigger] d[k]).start <= c[i].start && c[i].start + c[i].size
                <= d[k].start + d[k].size;
        assert(d[k].apart(e[j]));
    }
}

pub proof fn lemma_apart_symmetric(c: Seq<Span>, d: Seq<Span>)
    requires
        lists_apart(c, d),
    ensures
        lists_apart(d, c),
{
    assert forall|i: int, j: int| 0 <= i < d.len() && 0 <= j < c.len() implies (
    #[trigger] d[i]).apart(#[trigger] c[j]) by {
        assert(c[j].apart(d[i]));
    }
}

pub proof fn lemma_same_nodes<T: Content>(a: T, b: T)
    requires
        same_file(a, b),
    ensures
        forall|i: int| #[trigger] node_read(b, i) == node_read(a, i),
        head_read(b) == head_read(a),
        forall|c: Seq<Span>| chain(a, c) ==> #[trigger] chain(b, c),
{
    reveal(node_read);
    lemma_same_at(a, b);
    assert forall|i: int| #[trigger] node_read(b, i) == node_read(a, i) by {
        assert(at(b, i + 1) == at(a, i + 1));
        assert(at(b, i + 2) == at(a, i + 2));
    }
}

pub proof fn lemma_kept_off_same<T: Content>(a: T, b: T, c: Seq<Span>)
    requires
        same_file(a, b),
    ensures
        kept_off(a, b, c),
{
    lemma_same_at(a, b);
}

/// A node survives the writing of another one.
pub proof fn lemma_node_survives<T: Content>(a: T, b: T, s: Span, node: Node, lo: int, hi: int)
    requires
        node_read(a, s.start as int) == Ok::<Node, Error>(node),
        node.size == s.size,
        kept_but(a, b, lo, hi),
        hi <= s.start || s.start + s.size <= lo,
    ensures
        node_read(b, s.start as int) == Ok::<Node, Error>(node),
{
    lemma_node_kept(a, b, s, node);
}

/// What an allocation makes of the free list: `taken` are its first blocks, `rest` the others.
pub open spec fn allocated<T: Content>(
    a: T,
    b: T,
    free: Seq<Span>,
    count: int,
    taken: Seq<Span>,
    rest: Seq<Span>,
) -> bool {
    &&& chain(b, taken)
    &&& free_list(b, rest)
    &&& maps(taken).len() == count
    &&& blocks(taken) + blocks(rest) == blocks(free)
    &&& inside(taken, free)
    &&& inside(rest, free)
    &&& lists_apart(taken, rest)
    &&& kept_off(a, b, free)
}

/// In `b` every entry of `a` is kept but entry 0 and those of the blocks of `s` and `r`.
pub open spec fn kept_but_two<T: Content>(a: T, b: T, s: Span, r: Span) -> bool {
    &&& b.bytes().len() == a.bytes().len()
    &&& forall|j: int|
        j >= 1 && !s.has(j - 1) && !r.has(j - 1) && at(a, j) is Some ==> #[trigger] at(b, j) == at(
            a,
            j,
        )
}

/// The node of run `k` after the list has been cut behind run `i`.
pub open spec fn cut_node(c: Seq<Span>, i: int, k: int) -> Node {
    Node {
        size: c[k].size,
        prev: if k == i + 1 {
            None
        } else {
            node_of(c, k).prev
        },
        next: if k == i {
            None
        } else {
            node_of(c, k).next
        },
    }
}

/// A list that is cut behind run `i` becomes two lists.
pub proof fn lemma_cut_linked<T: Content>(b: T, c: Seq<Span>, i: int)
    requires
        0 <= i < c.len(),
        forall|k: int|
            0 <= k < c.len() ==> node_read(b, c[k].start as int) == Ok::<Node, Error>(#[trigger] cut_node(c, i, k),
            ),
    ensures
        linked(b, c.take(i + 1)),
        linked(b, c.skip(i + 1)),
{
    let taken = c.take(i + 1);
    let rest = c.skip(i + 1);
    assert forall|k: int| 0 <= k < taken.len() implies node_read(
        b,
        taken[k].start as int,
    ) == Ok::<Node, Error>(#[trigger] node_of(taken, k)) by {
        assert(taken[k] == c[k]);
        assert(node_of(taken, k) == cut_node(c, i, k));
    }
    assert forall|k: int| 0 <= k < rest.len() implies node_read(
        b,
        rest[k].start as int,
    ) == Ok::<Node, Error>(#[trigger] node_of(rest, k)) by {
        assert(rest[k] == c[i + 1 + k]);
        assert(node_of(rest, k) == cut_node(c, i, i + 1 + k));
    }
}

/// The parts of a list of runs that are apart.
pub proof fn lemma_cut_spread(c: Seq<Span>, i: int, n: int)
    requires
        spread(c, n),
        0 <= i <= c.len(),
    ensures
        spread(c.take(i), n),
        spread(c.skip(i), n),
        inside(c.take(i), c),
        inside(c.skip(i), c),
        lists_apart(c.take(i), c.skip(i)),
        maps(c.take(i)) + maps(c.skip(i)) == maps(c),
        blocks(c.take(i)) + blocks(c.skip(i)) == blocks(c),
{
    let taken = c.take(i);
    let rest = c.skip(i);
    assert(c =~= taken + rest);
    lemma_maps_concat(taken, rest);
    assert forall|k: int| 0 <= k < taken.len() implies part_of(#[trigger] taken[k], c) by {
        assert(c[k] == taken[k]);
    }
    assert forall|k: int| 0 <= k < rest.len() implies part_of(#[trigger] rest[k], c) by {
        assert(c[i + k] == rest[k]);
    }
    assert forall|k: int, l: int| 0 <= k < l < taken.len() implies (#[trigger] taken[k]).apart(
        #[trigger] taken[l],
    ) by {
        assert(c[k].apart(c[l]));
    }
    assert forall|k: int| 0 <= k < taken.len() implies (#[trigger] taken[k]).size >= 1
        && taken[k].start + taken[k].size <= n by {
        assert(taken[k] == c[k]);
    }
    assert forall|k: int, l: int| 0 <= k < l < rest.len() implies (#[trigger] rest[k]).apart(
        #[trigger] rest[l],
    ) by {
        assert(c[i + k].apart(c[i + l]));
    }
    assert forall|k: int| 0 <= k < rest.len() implies (#[trigger] rest[k]).size >= 1
        && rest[k].start + rest[k].size <= n by {
        assert(rest[k] == c[i + k]);
    }
    assert forall|k: int, l: int| 0 <= k < taken.len() && 0 <= l < rest.len() implies (
    #[trigger] taken[k]).apart(#[trigger] rest[l]) by {
        assert(c[k].apart(c[i + l]));
    }
}

/// Entries of two runs of a list were written: all entries off the list are kept.
pub proof fn lemma_kept_two_off<T: Content>(a: T, b: T, s: Span, r: Span, c: Seq<Span>)
    requires
        kept_but_two(a, b, s, r),
        part_of(s, c),
        part_of(r, c),
    ensures
        kept_off(a, b, c),
{
    let x = choose|x: int|
        0 <= x < c.len() && (#[trigger] c[x]).start <= s.start && s.start + s.size <= c[x].start
            + c[x].size;
    let y = choose|y: int|
        0 <= y < c.len() && (#[trigger] c[y]).start <= r.start && r.start + r.size <= c[y].start
            + c[y].size;
    assert forall|j: int| j >= 1 && !covers(c, j - 1) && at(a, j) is Some implies #[trigger] at(
        b,
        j,
    ) == at(a, j) by {
        assert(!c[x].has(j - 1));
        assert(!c[y].has(j - 1));
    }
}

/// The list is cut behind run `i`: the table `b` differs from `a` only in the links between
/// that run and the next one.
pub proof fn lemma_cut<T: Content>(a: T, b: T, c: Seq<Span>, i: int)
    requires
        chain(a, c),
        0 <= i < c.len(),
        node_read(b, c[i].start as int) == Ok::<Node, Error>(cut_node(c, i, i)),
        i + 1 < c.len() ==> {
            &&& node_read(b, c[i + 1].start as int) == Ok::<Node, Error>(cut_node(c, i, i + 1))
            &&& kept_but_two(a, b, c[i], c[i + 1])
        },
        i + 1 == c.len() ==> kept_but_two(a, b, c[i], c[i]),
    ensures
        chain(b, c.take(i + 1)),
        chain(b, c.skip(i + 1)),
        kept_off(a, b, c),
{
    assert forall|k: int| 0 <= k < c.len() implies node_read(b, c[k].start as int)
        == Ok::<Node, Error>(#[trigger] cut_node(c, i, k)) by {
        if k != i && k != i + 1 {
            if k < i {
                assert(c[k].apart(c[i]));
            } else {
                assert(c[i].apart(c[k]));
            }
            if i + 1 < c.len() {
                if k < i + 1 {
                    assert(c[k].apart(c[i + 1]));
                } else {
                    assert(c[i + 1].apart(c[k]));
                }
            }
            assert(node_read(a, c[k].start as int) == Ok::<Node, Error>(node_of(c, k)));
            lemma_node_kept(a, b, c[k], node_of(c, k));
        }
    }
    lemma_cut_linked(b, c, i);
    lemma_cut_spread(c, i + 1, block_count(a));
    assert(part_of(c[i], c));
    if i + 1 < c.len() {
        assert(part_of(c[i + 1], c));
        lemma_kept_two_off(a, b, c[i], c[i + 1], c);
    } else {
        lemma_kept_two_off(a, b, c[i], c[i], c);
    }
}

/// The list with run `i` cut in two after `k` blocks: the part up to there.
pub open spec fn left_part(c: Seq<Span>, i: int, k: int) -> Seq<Span> {
    c.take(i).push(Span { start: c[i].start, size: k as usize })
}

/// The list with run `i` cut in two after `k` blocks: the part from there on.
pub open spec fn right_part(c: Seq<Span>, i: int, k: int) -> Seq<Span> {
    seq![Span { start: (c[i].start + k) as usize, size: (c[i].size - k) as usize }] + c.skip(i + 1)
}

/// The parts of a list whose run `i` is cut in two.
pub proof fn lemma_split_spread(c: Seq<Span>, i: int, k: int, n: int)
    requires
        spread(c, n),
        n <= usize::MAX,
        0 <= i < c.len(),
        0 < k < c[i].size,
    ensures
        spread(left_part(c, i, k), n),
        spread(right_part(c, i, k), n),
        inside(left_part(c, i, k), c),
        inside(right_part(c, i, k), c),
        lists_apart(left_part(c, i, k), right_part(c, i, k)),
        maps(left_part(c, i, k)).len() == maps(c.take(i)).len() + k,
        blocks(left_part(c, i, k)) + blocks(right_part(c, i, k)) == blocks(c),
{
    let l = left_part(c, i, k);
    let r = right_part(c, i, k);
    lemma_cut_spread(c, i, n);
    lemma_cut_spread(c, i + 1, n);
    let ls = Span { start: c[i].start, size: k as usize };
    let rs = Span { start: (c[i].start + k) as usize, size: (c[i].size - k) as usize };
    assert(l =~= c.take(i) + seq![ls]);
    assert(r =~= seq![rs] + c.skip(i + 1));
    lemma_maps_concat(c.take(i), seq![ls]);
    lemma_maps_concat(seq![rs], c.skip(i + 1));
    lemma_maps_single(ls);
    lemma_maps_single(rs);
    lemma_maps_single(c[i]);
    lemma_maps_cut(c[i], k);
    assert(c.take(i + 1) =~= c.take(i) + seq![c[i]]);
    lemma_maps_concat(c.take(i), seq![c[i]]);
    assert(blocks(l) + blocks(r) =~= blocks(c));
    assert forall|x: int| 0 <= x < l.len() implies part_of(#[trigger] l[x], c) by {
        assert(c[x].start <= l[x].start);
    }
    assert forall|x: int| 0 <= x < r.len() implies part_of(#[trigger] r[x], c) by {
        if x == 0 {
            assert(c[i].start <= r[0].start);
        } else {
            assert(c[i + x] == r[x]);
        }
    }
    assert forall|x: int, y: int| 0 <= x < y < l.len() implies (#[trigger] l[x]).apart(
        #[trigger] l[y],
    ) by {
        assert(c[x].apart(c[y]));
    }
    assert forall|x: int| 0 <= x < l.len() implies (#[trigger] l[x]).size >= 1 && l[x].start
        + l[x].size <= n by {
        assert(c[x].start + c[x].size <= n);
    }
    assert forall|x: int, y: int| 0 <= x < y < r.len() implies (#[trigger] r[x]).apart(
        #[trigger] r[y],
    ) by {
        assert(c[i + x].apart(c[i + y]));
    }
    assert forall|x: int| 0 <= x < r.len() implies (#[trigger] r[x]).size >= 1 && r[x].start
        + r[x].size <= n by {
        assert(c[i + x].start + c[i + x].size <= n);
    }
    assert forall|x: int, y: int| 0 <= x < l.len() && 0 <= y < r.len() implies (
    #[trigger] l[x]).apart(#[trigger] r[y]) by {
        if x < i + y {
            assert(c[x].apart(c[i + y]));
        }
    }
}

/// A run of a list whose blocks were not written keeps its node.
pub proof fn lemma_run_kept<T: Content>(a: T, b: T, c: Seq<Span>, s: Span, r: Span, x: int)
    requires
        chain(a, c),
        kept_but_two(a, b, s, r),
        0 <= x < c.len(),
        c[x].apart(s),
        c[x].apart(r),
    ensures
        node_read(b, c[x].start as int) == Ok::<Node, Error>(node_of(c, x)),
{
    assert(node_read(a, c[x].start as int) == Ok::<Node, Error>(node_of(c, x)));
    lemma_node_kept(a, b, c[x], node_of(c, x));
}

/// The nodes of a list whose run `i` has been cut in two after `k` blocks.
pub open spec fn split_nodes<T: Content>(b: T, c: Seq<Span>, i: int, k: int) -> bool {
    &&& node_read(b, c[i].start as int) == Ok::<Node, Error>(
        Node { size: k as usize, prev: node_of(c, i).prev, next: None },
    )
    &&& node_read(b, c[i].start + k) == Ok::<Node, Error>(
        Node { size: (c[i].size - k) as usize, prev: None, next: node_of(c, i).next },
    )
    &&& i + 1 < c.len() ==> node_read(b, c[i + 1].start as int) == Ok::<Node, Error>(
        Node { prev: Some((c[i].start + k) as usize), ..node_of(c, i + 1) },
    )
}

pub proof fn lemma_split_linked<T: Content>(b: T, c: Seq<Span>, i: int, k: int)
    requires
        0 <= i < c.len(),
        0 < k < c[i].size,
        c[i].start + k <= usize::MAX,
        split_nodes(b, c, i, k),
        forall|x: int|
            0 <= x < c.len() && x != i && x != i + 1 ==> node_read(
                b,
                c[x].start as int,
            ) == Ok::<Node, Error>(#[trigger] node_of(c, x)),
    ensures
        linked(b, left_part(c, i, k)),
        linked(b, right_part(c, i, k)),
{
    let l = left_part(c, i, k);
    let r = right_part(c, i, k);
    assert forall|x: int| 0 <= x < l.len() implies node_read(b, l[x].start as int)
        == Ok::<Node, Error>(#[trigger] node_of(l, x)) by {
        if x < i {
            assert(l[x] == c[x]);
            assert(node_of(l, x) == node_of(c, x));
        } else {
            assert(node_of(l, x).prev == node_of(c, i).prev);
        }
    }
    assert forall|x: int| 0 <= x < r.len() implies node_read(b, r[x].start as int)
        == Ok::<Node, Error>(#[trigger] node_of(r, x)) by {
        if x == 0 {
            if r.len() > 1 {
                assert(r[1] == c[i + 1]);
            }
            assert(node_of(r, 0).next == node_of(c, i).next);
        } else {
            assert(r[x] == c[i + x]);
            if x == 1 {
                assert(node_of(r, 1) == Node {
                    prev: Some((c[i].start + k) as usize),
                    ..node_of(c, i + 1)
                });
            } else {
                assert(r[x - 1] == c[i + x - 1]);
                assert(node_of(r, x) == node_of(c, i + x));
            }
        }
    }
}

/// Run `i` of the list is cut in two after `k` blocks: the table `b` differs from `a` only in
/// that run and in the link back from the next one.
pub proof fn lemma_split<T: Content>(a: T, b: T, c: Seq<Span>, i: int, k: int)
    requires
        chain(a, c),
        block_count(a) <= usize::MAX,
        0 <= i < c.len(),
        0 < k < c[i].size,
        split_nodes(b, c, i, k),
        kept_but_two(a, b, c[i], if i + 1 < c.len() { c[i + 1] } else { c[i] }),
    ensures
        chain(b, left_part(c, i, k)),
        chain(b, right_part(c, i, k)),
        kept_off(a, b, c),
{
    let s = c[i];
    let r = if i + 1 < c.len() {
        c[i + 1]
    } else {
        c[i]
    };
    assert(part_of(s, c));
    assert(part_of(r, c));
    lemma_split_spread(c, i, k, block_count(a));
    assert forall|x: int| 0 <= x < c.len() && x != i && x != i + 1 implies node_read(
        b,
        c[x].start as int,
    ) == Ok::<Node, Error>(#[trigger] node_of(c, x)) by {
        assert(c[x].apart(s) && c[x].apart(r)) by {
            assert(x < i ==> c[x].apart(c[i]));
            assert(x > i ==> c[i].apart(c[x]));
            assert(i + 1 < c.len() && x < i + 1 ==> c[x].apart(c[i + 1]));
            assert(i + 1 < c.len() && x > i + 1 ==> c[i + 1].apart(c[x]));
        }
        lemma_run_kept(a, b, c, s, r, x);
    }
    lemma_split_linked(b, c, i, k);
    lemma_kept_two_off(a, b, s, r, c);
}

pub proof fn lemma_join_linked<T: Content>(b: T, c: Seq<Span>, d: Seq<Span>)
    requires
        c.len() > 0,
        d.len() > 0,
        node_read(b, c.last().start as int) == Ok::<Node, Error>(
            Node { next: Some(d[0].start), ..node_of(c, c.len() - 1) },
        ),
        node_read(b, d[0].start as int) == Ok::<Node, Error>(
            Node { prev: Some(c.last().start), ..node_of(d, 0) },
        ),
        forall|x: int|
            0 <= x < c.len() - 1 ==> node_read(b, c[x].start as int) == Ok::<Node, Error>(#[trigger] node_of(c, x)),
        forall|x: int|
            0 < x < d.len() ==> node_read(b, d[x].start as int) == Ok::<Node, Error>(#[trigger] node_of(d, x),
            ),
    ensures
        linked(b, c + d),
{
    let e = c + d;
    assert forall|x: int| 0 <= x < e.len() implies node_read(b, e[x].start as int)
        == Ok::<Node, Error>(#[trigger] node_of(e, x)) by {
        if x < c.len() {
            assert(e[x] == c[x]);
            if x < c.len() - 1 {
                assert(node_of(e, x) == node_of(c, x));
            } else {
                assert(e[x + 1] == d[0]);
                assert(node_of(e, x) == Node { next: Some(d[0].start), ..node_of(c, x) });
            }
        } else {
            let y = x - c.len();
            assert(e[x] == d[y]);
            if y > 0 {
                assert(e[x - 1] == d[y - 1]);
                assert(node_of(e, x) == node_of(d, y));
            } else {
                assert(e[x - 1] == c.last());
                assert(node_of(e, x) == Node { prev: Some(c.last().start), ..node_of(d, 0) });
            }
        }
    }
}

/// Two lists are joined: the table `b` differs from `a` only in the links between the last run
/// of one and the first run of the other.
pub proof fn lemma_join<T: Content>(a: T, b: T, c: Seq<Span>, d: Seq<Span>)
    requires
        chain(a, c),
        chain(a, d),
        lists_apart(c, d),
        c.len() > 0,
        d.len() > 0,
        node_read(b, c.last().start as int) == Ok::<Node, Error>(
            Node { next: Some(d[0].start), ..node_of(c, c.len() - 1) },
        ),
        node_read(b, d[0].start as int) == Ok::<Node, Error>(
            Node { prev: Some(c.last().start), ..node_of(d, 0) },
        ),
        kept_but_two(a, b, c.last(), d[0]),
    ensures
        chain(b, c + d),
        kept_off(a, b, c + d),
{
    let e = c + d;
    assert forall|x: int| 0 <= x < c.len() - 1 implies node_read(
        b,
        c[x].start as int,
    ) == Ok::<Node, Error>(#[trigger] node_of(c, x)) by {
        assert(c[x].apart(c.last()));
        assert(c[x].apart(d[0]));
        lemma_run_kept(a, b, c, c.last(), d[0], x);
    }
    assert forall|x: int| 0 < x < d.len() implies node_read(b, d[x].start as int)
        == Ok::<Node, Error>(#[trigger] node_of(d, x)) by {
        assert(d[0].apart(d[x]));
        assert(c.last().apart(d[x]));
        assert(d[x].apart(c.last()));
        lemma_run_kept(a, b, d, c.last(), d[0], x);
    }
    lemma_join_linked(b, c, d);
    lemma_spread_concat(c, d, block_count(a));
    assert(e[c.len() - 1] == c.last());
    assert(e[c.len() as int] == d[0]);
    assert(part_of(c.last(), e));
    assert(part_of(d[0], e));
    lemma_kept_two_off(a, b, c.last(), d[0], e);
}

pub proof fn lemma_spread_concat(c: Seq<Span>, d: Seq<Span>, n: int)
    requires
        spread(c, n),
        spread(d, n),
        lists_apart(c, d),
    ensures
        spread(c + d, n),
{
    let e = c + d;
    assert forall|x: int, y: int| 0 <= x < y < e.len() implies (#[trigger] e[x]).apart(
        #[trigger] e[y],
    ) by {
        if y < c.len() {
            assert(c[x].apart(c[y]));
        } else if x >= c.len() {
            assert(d[x - c.len()].apart(d[y - c.len()]));
        } else {
            assert(c[x].apart(d[y - c.len()]));
        }
    }
    assert forall|x: int| 0 <= x < e.len() implies (#[trigger] e[x]).size >= 1 && e[x].start
        + e[x].size <= n by {
        if x < c.len() {
            assert(e[x] == c[x]);
        } else {
            assert(e[x] == d[x - c.len()]);
        }
    }
}

/// A run is taken whole, as the last one: first the next run is made the first of the free
/// list, then the head is set to it, then the run is ended.
pub proof fn lemma_take_whole<T: Content>(a: T, m1: T, m2: T, b: T, c: Seq<Span>, i: int)
    requires
        free_list(a, c),
        0 <= i < c.len(),
        block_count(a) <= usize::MAX,
        i + 1 < c.len() ==> {
            &&& kept_but(a, m1, c[i + 1].start as int, c[i + 1].start + c[i + 1].size)
            &&& node_read(m1, c[i + 1].start as int) == Ok::<Node, Error>(cut_node(c, i, i + 1))
        },
        i + 1 == c.len() ==> same_file(a, m1),
        kept_but(m1, m2, -1, 0),
        head_read(m2) == Ok::<Option<usize>, Error>(node_of(c, i).next),
        kept_but(m2, b, c[i].start as int, c[i].start + c[i].size),
        node_read(b, c[i].start as int) == Ok::<Node, Error>(cut_node(c, i, i)),
    ensures
        allocated(
            a,
            b,
            c,
            maps(c.take(i + 1)).len() as int,
            c.take(i + 1),
            c.skip(i + 1),
        ),
{
    if i + 1 == c.len() {
        lemma_same_at(a, m1);
    }
    assert(at(m2, 0) is Some);
    assert(head_read(b) == head_read(m2));
    if i + 1 < c.len() {
        let s = c[i + 1];
        assert(c[i].apart(c[i + 1]));
        lemma_node_survives(m1, m2, s, cut_node(c, i, i + 1), -1, 0);
        lemma_node_survives(
            m2,
            b,
            s,
            cut_node(c, i, i + 1),
            c[i].start as int,
            c[i].start + c[i].size,
        );
        assert(kept_but_two(a, b, c[i], c[i + 1])) by {
            assert forall|j: int|
                j >= 1 && !c[i].has(j - 1) && !s.has(j - 1) && at(a, j) is Some implies #[trigger] at(
                b,
                j,
            ) == at(a, j) by {
                assert(at(m1, j) == at(a, j));
                assert(at(m2, j) == at(a, j));
            }
        }
    } else {
        assert(kept_but_two(a, b, c[i], c[i])) by {
            assert forall|j: int|
                j >= 1 && !c[i].has(j - 1) && at(a, j) is Some implies #[trigger] at(b, j) == at(
                a,
                j,
            ) by {
                assert(at(m1, j) == at(a, j));
                assert(at(m2, j) == at(a, j));
            }
        }
    }
    lemma_cut(a, b, c, i);
    lemma_cut_spread(c, i + 1, block_count(a));
    assert(head_is(b, c.skip(i + 1)));
}

/// A run is taken in part: its first `k` blocks become the last run that is taken, the others
/// the first free run.
pub proof fn lemma_take_part<T: Content>(
    a: T,
    m1: T,
    m2: T,
    m3: T,
    b: T,
    c: Seq<Span>,
    i: int,
    k: int,
)
    requires
        free_list(a, c),
        0 <= i < c.len(),
        0 < k < c[i].size,
        block_count(a) <= usize::MAX,
        kept_but(a, m1, c[i].start as int, c[i].start + k),
        node_read(m1, c[i].start as int) == Ok::<Node, Error>(
            Node { size: k as usize, prev: node_of(c, i).prev, next: None },
        ),
        kept_but(m1, m2, c[i].start + k, c[i].start + c[i].size),
        node_read(m2, c[i].start + k) == Ok::<Node, Error>(
            Node { size: (c[i].size - k) as usize, prev: None, next: node_of(c, i).next },
        ),
        i + 1 < c.len() ==> {
            &&& kept_but(m2, m3, c[i + 1].start as int, c[i + 1].start + c[i + 1].size)
            &&& node_read(m3, c[i + 1].start as int) == Ok::<Node, Error>(
                Node { prev: Some((c[i].start + k) as usize), ..node_of(c, i + 1) },
            )
        },
        i + 1 == c.len() ==> same_file(m2, m3),
        kept_but(m3, b, -1, 0),
        head_read(b) == Ok::<Option<usize>, Error>(Some((c[i].start + k) as usize)),
    ensures
        allocated(
            a,
            b,
            c,
            maps(c.take(i)).len() + k,
            left_part(c, i, k),
            right_part(c, i, k),
        ),
{
    lemma_split_steps(a, m1, m2, m3, c, i, k);
    lemma_head_set(m3, b, left_part(c, i, k));
    lemma_head_set(m3, b, right_part(c, i, k));
    assert(kept_off(m3, b, c));
    lemma_kept_off_both(a, m3, b, c);
    lemma_split_spread(c, i, k, block_count(a));
    let rs = Span { start: (c[i].start + k) as usize, size: (c[i].size - k) as usize };
    assert(right_part(c, i, k)[0] == rs);
    assert(head_is(b, right_part(c, i, k)));
}

/// Two runs are written, one after the other.
pub proof fn lemma_two_writes<T: Content>(a: T, m: T, b: T, s: Span, r: Span)
    requires
        kept_but(a, m, s.start as int, s.start + s.size),
        kept_but(m, b, r.start as int, r.start + r.size),
    ensures
        kept_but_two(a, b, s, r),
        kept_but_two(a, b, r, s),
        head_read(a) is Ok ==> head_read(b) == head_read(a),
{
    assert forall|j: int|
        j >= 0 && !s.has(j - 1) && !r.has(j - 1) && at(a, j) is Some implies #[trigger] at(b, j)
        == at(a, j) by {
        assert(at(m, j) == at(a, j));
    }
    if head_read(a) is Ok {
        assert(at(a, 0) is Some);
        assert(at(m, 0) == at(a, 0));
    }
}

/// Setting the head keeps every list.
pub proof fn lemma_head_set<T: Content>(a: T, b: T, c: Seq<Span>)
    requires
        kept_but(a, b, -1, 0),
        chain(a, c),
    ensures
        chain(b, c),
{
    let none = Seq::<Span>::empty();
    assert(kept_off(a, b, none)) by {
        assert forall|j: int| j >= 1 && at(a, j) is Some implies #[trigger] at(b, j) == at(a, j) by {
        }
    }
    lemma_chain_kept(a, b, none, c);
}

pub proof fn lemma_kept_off_both<T: Content>(a: T, m: T, b: T, c: Seq<Span>)
    requires
        kept_off(a, m, c),
        kept_off(m, b, c),
    ensures
        kept_off(a, b, c),
{
    assert forall|j: int| j >= 1 && !covers(c, j - 1) && at(a, j) is Some implies #[trigger] at(
        b,
        j,
    ) == at(a, j) by {
        assert(at(m, j) == at(a, j));
    }
}

/// A list is freed: the first free run gets the last run of the list before it, that run gets
/// the first free one behind it, and the head is set to the first run of the list.
pub proof fn lemma_give_back<T: Content>(a: T, m1: T, m2: T, b: T, c: Seq<Span>, f: Seq<Span>)
    requires
        chain(a, c),
        free_list(a, f),
        lists_apart(c, f),
        c.len() > 0,
        f.len() > 0 ==> {
            &&& kept_but(a, m1, f[0].start as int, f[0].start + f[0].size)
            &&& node_read(m1, f[0].start as int) == Ok::<Node, Error>(
                Node { prev: Some(c.last().start), ..node_of(f, 0) },
            )
        },
        f.len() == 0 ==> same_file(a, m1),
        kept_but(m1, m2, c.last().start as int, c.last().start + c.last().size),
        node_read(m2, c.last().start as int) == Ok::<Node, Error>(
            Node {
                next: if f.len() == 0 {
                    None
                } else {
                    Some(f[0].start)
                },
                ..node_of(c, c.len() - 1)
            },
        ),
        kept_but(m2, b, -1, 0),
        head_read(b) == Ok::<Option<usize>, Error>(Some(c[0].start)),
    ensures
        free_list(b, c + f),
        kept_off(a, b, c + f),
{
    let e = c + f;
    let last = c.last();
    if f.len() > 0 {
        assert(last.apart(f[0]));
        lemma_two_writes(a, m1, m2, f[0], last);
        lemma_node_survives(
            m1,
            m2,
            f[0],
            Node { prev: Some(last.start), ..node_of(f, 0) },
            last.start as int,
            last.start + last.size,
        );
        lemma_join(a, m2, c, f);
    } else {
        assert(e =~= c);
        lemma_same_at(a, m1);
        assert(kept_but_two(a, m2, last, last)) by {
            assert forall|j: int|
                j >= 1 && !last.has(j - 1) && at(a, j) is Some implies #[trigger] at(m2, j) == at(
                a,
                j,
            ) by {
                assert(at(m1, j) == at(a, j));
            }
        }
        assert forall|x: int| 0 <= x < c.len() implies node_read(m2, c[x].start as int) == Ok::<
            Node,
            Error,
        >(#[trigger] node_of(c, x)) by {
            if x < c.len() - 1 {
                assert(c[x].apart(last));
                lemma_run_kept(a, m2, c, last, last, x);
            }
        }
        assert(part_of(last, c)) by {
            assert(c[c.len() - 1].start <= last.start);
        }
        lemma_kept_two_off(a, m2, last, last, c);
    }
    lemma_head_set(m2, b, e);
    assert(e[0] == c[0]);
    assert(kept_off(m2, b, e));
    lemma_kept_off_both(a, m2, b, e);
}

pub proof fn lemma_kept_off_wider<T: Content>(a: T, b: T, c: Seq<Span>, d: Seq<Span>)
    requires
        kept_off(a, b, c),
        inside(c, d),
    ensures
        kept_off(a, b, d),
{
    assert forall|j: int| j >= 1 && !covers(d, j - 1) && at(a, j) is Some implies #[trigger] at(
        b,
        j,
    ) == at(a, j) by {
        if covers(c, j - 1) {
            let k = choose|k: int| 0 <= k < c.len() && (#[trigger] c[k]).has(j - 1);
            assert(part_of(c[k], d));
            let l = choose|l: int|
                0 <= l < d.len() && (#[trigger] d[l]).start <= c[k].start && c[k].start + c[k].size
                    <= d[l].start + d[l].size;
            assert(d[l].has(j - 1));
        }
    }
}

pub proof fn lemma_apart_concat(c: Seq<Span>, d: Seq<Span>, e: Seq<Span>)
    requires
        lists_apart(c, e),
        lists_apart(d, e),
    ensures
        lists_apart(c + d, e),
{
    assert forall|i: int, j: int| 0 <= i < (c + d).len() && 0 <= j < e.len() implies (#[trigger] (c
        + d)[i]).apart(#[trigger] e[j]) by {
        if i < c.len() {
            assert(c[i].apart(e[j]));
        } else {
            assert(d[i - c.len()].apart(e[j]));
        }
    }
}

pub proof fn lemma_inside_self(c: Seq<Span>)
    ensures
        inside(c, c),
{
    assert forall|i: int| 0 <= i < c.len() implies part_of(#[trigger] c[i], c) by {
        assert(c[i].start <= c[i].start);
    }
}

pub proof fn lemma_inside_concat(c: Seq<Span>, d: Seq<Span>, e: Seq<Span>, f: Seq<Span>)
    requires
        inside(c, e),
        inside(d, f),
    ensures
        inside(c + d, e + f),
        inside(c, e + f),
        inside(d, e + f),
{
    let g = e + f;
    assert forall|i: int| 0 <= i < c.len() implies part_of(#[trigger] c[i], g) by {
        let j = choose|j: int|
            0 <= j < e.len() && (#[trigger] e[j]).start <= c[i].start && c[i].start + c[i].size
                <= e[j].start + e[j].size;
        assert(part_of(c[i], e));
        assert(g[j] == e[j]);
    }
    assert forall|i: int| 0 <= i < d.len() implies part_of(#[trigger] d[i], g) by {
        let j = choose|j: int|
            0 <= j < f.len() && (#[trigger] f[j]).start <= d[i].start && d[i].start + d[i].size
                <= f[j].start + f[j].size;
        assert(part_of(d[i], f));
        assert(g[e.len() + j] == f[j]);
    }
    assert forall|i: int| 0 <= i < (c + d).len() implies part_of(#[trigger] (c + d)[i], g) by {
        if i < c.len() {
            assert(part_of(c[i], g));
        } else {
            assert(part_of(d[i - c.len()], g));
        }
    }
}

/// A file grows: `taken` has been allocated in `m`, and is joined to its list `c` in `b`.
pub proof fn lemma_grown<T: Content>(
    a: T,
    m: T,
    m2: T,
    b: T,
    c: Seq<Span>,
    free: Seq<Span>,
    count: int,
    taken: Seq<Span>,
    rest: Seq<Span>,
)
    requires
        chain(m, c),
        lists_apart(c, free),
        allocated(a, m, free, count, taken, rest),
        c.len() > 0,
        taken.len() > 0,
        kept_but(m, m2, c.last().start as int, c.last().start + c.last().size),
        node_read(m2, c.last().start as int) == Ok::<Node, Error>(
            Node { next: Some(taken[0].start), ..node_of(c, c.len() - 1) },
        ),
        kept_but(m2, b, taken[0].start as int, taken[0].start + taken[0].size),
        node_read(b, taken[0].start as int) == Ok::<Node, Error>(
            Node { prev: Some(c.last().start), ..node_of(taken, 0) },
        ),
    ensures
        chain(b, c + taken),
        free_list(b, rest),
        lists_apart(c + taken, rest),
        kept_off(a, b, c + free),
        inside(c + taken, c + free),
        inside(rest, c + free),
{
    lemma_apart_symmetric(c, free);
    lemma_inside_apart(taken, free, c);
    lemma_apart_symmetric(taken, c);
    lemma_inside_apart(rest, free, c);
    lemma_apart_symmetric(rest, c);
    lemma_apart_concat(c, taken, rest);
    assert(c.last().apart(taken[0]));
    lemma_two_writes(m, m2, b, c.last(), taken[0]);
    lemma_node_survives(
        m2,
        b,
        c.last(),
        Node { next: Some(taken[0].start), ..node_of(c, c.len() - 1) },
        taken[0].start as int,
        taken[0].start + taken[0].size,
    );
    lemma_join(m, b, c, taken);
    lemma_chain_kept(m, b, c + taken, rest);
    lemma_inside_self(c);
    lemma_inside_concat(c, taken, c, free);
    lemma_inside_concat(c, rest, c, free);
    lemma_inside_self(free);
    lemma_inside_concat(c, free, c, free);
    lemma_kept_off_wider(a, m, free, c + free);
    lemma_kept_off_wider(m, b, c + taken, c + free);
    lemma_kept_off_both(a, m, b, c + free);
}

/// The last part `d` of the list `c + d` has been cut off in `m`, and is freed in `b`.
pub proof fn lemma_shrunk<T: Content>(
    a: T,
    m: T,
    b: T,
    whole: Seq<Span>,
    c: Seq<Span>,
    d: Seq<Span>,
    free: Seq<Span>,
)
    requires
        lists_apart(whole, free),
        chain(m, c),
        lists_apart(c, d),
        inside(c, whole),
        inside(d, whole),
        kept_off(a, m, whole),
        kept_off(m, b, d + free),
        free_list(b, d + free),
    ensures
        chain(b, c),
        lists_apart(c, d + free),
        kept_off(a, b, whole + free),
        inside(c, whole + free),
        inside(d + free, whole + free),
{
    lemma_inside_apart(c, whole, free);
    lemma_apart_symmetric(c, free);
    lemma_apart_symmetric(c, d);
    lemma_apart_concat(d, free, c);
    lemma_apart_symmetric(d + free, c);
    lemma_chain_kept(m, b, d + free, c);
    lemma_inside_self(free);
    lemma_inside_concat(c, free, whole, free);
    lemma_inside_concat(d, free, whole, free);
    lemma_inside_self(whole);
    lemma_inside_concat(whole, free, whole, free);
    lemma_kept_off_wider(a, m, whole, whole + free);
    lemma_kept_off_wider(m, b, d + free, whole + free);
    lemma_kept_off_both(a, m, b, whole + free);
}

/// The free list survives what happens to another list.
pub proof fn lemma_free_kept<T: Content>(a: T, b: T, c: Seq<Span>, free: Seq<Span>)
    requires
        free_list(a, free),
        lists_apart(c, free),
        kept_off(a, b, c),
        head_read(b) == head_read(a),
    ensures
        free_list(b, free),
{
    lemma_chain_kept(a, b, c, free);
}

/// Run `i` of a list is cut in two after `k` blocks, in three steps.
pub proof fn lemma_split_steps<T: Content>(
    a: T,
    m1: T,
    m2: T,
    b: T,
    c: Seq<Span>,
    i: int,
    k: int,
)
    requires
        chain(a, c),
        0 <= i < c.len(),
        0 < k < c[i].size,
        block_count(a) <= usize::MAX,
        kept_but(a, m1, c[i].start as int, c[i].start + k),
        node_read(m1, c[i].start as int) == Ok::<Node, Error>(
            Node { size: k as usize, prev: node_of(c, i).prev, next: None },
        ),
        kept_but(m1, m2, c[i].start + k, c[i].start + c[i].size),
        node_read(m2, c[i].start + k) == Ok::<Node, Error>(
            Node { size: (c[i].size - k) as usize, prev: None, next: node_of(c, i).next },
        ),
        i + 1 < c.len() ==> {
            &&& kept_but(m2, b, c[i + 1].start as int, c[i + 1].start + c[i + 1].size)
            &&& node_read(b, c[i + 1].start as int) == Ok::<Node, Error>(
                Node { prev: Some((c[i].start + k) as usize), ..node_of(c, i + 1) },
            )
        },
        i + 1 == c.len() ==> same_file(m2, b),
    ensures
        chain(b, left_part(c, i, k)),
        chain(b, right_part(c, i, k)),
        kept_off(a, b, c),
        head_read(a) is Ok ==> head_read(b) == head_read(a),
{
    let l = Node { size: k as usize, prev: node_of(c, i).prev, next: None };
    let r = Node { size: (c[i].size - k) as usize, prev: None, next: node_of(c, i).next };
    let ls = Span { start: c[i].start, size: k as usize };
    let rs = Span { start: (c[i].start + k) as usize, size: (c[i].size - k) as usize };
    assert(c[i].start + c[i].size <= block_count(a));
    lemma_node_survives(m1, m2, ls, l, c[i].start + k, c[i].start + c[i].size);
    if i + 1 < c.len() {
        let s = c[i + 1];
        assert(c[i].apart(s));
        lemma_node_survives(m2, b, ls, l, s.start as int, s.start + s.size);
        lemma_node_survives(m2, b, rs, r, s.start as int, s.start + s.size);
    } else {
        lemma_same_at(m2, b);
        lemma_same_nodes(m2, b);
    }
    let s = if i + 1 < c.len() {
        c[i + 1]
    } else {
        c[i]
    };
    assert forall|j: int|
        j >= 0 && !c[i].has(j - 1) && !s.has(j - 1) && at(a, j) is Some implies #[trigger] at(b, j)
        == at(a, j) by {
        assert(at(m1, j) == at(a, j));
        assert(at(m2, j) == at(a, j));
    }
    if head_read(a) is Ok {
        assert(at(a, 0) is Some);
        assert(at(b, 0) == at(a, 0));
    }
    lemma_split(a, b, c, i, k);
}

} // verus!
