use crate::error::{make_error, Error};
use crate::little_endian::{push_le, read_u32};
use crate::random_access_file::{Content, RandomAccessFile};
use vstd::prelude::*;

verus! {

use crate::little_endian::{le32, le_bytes, lemma_le32_of_bytes};
use crate::random_access_file::{can_read, refused, same_file, spliced};

/// An entry of the table: two halves, each an index of 31 bits and a flag.
#[derive(Clone, Copy, PartialEq, Eq, Structural, Debug)]
pub struct Entry {
    pub u_index: u32,
    pub u_flag: bool,
    pub v_index: u32,
    pub v_flag: bool,
}

/// The number of bytes of an entry.
pub const ENTRY_LEN: usize = 8;

/// The first number that does not fit into the index of an entry.
pub const INDEX_END: u32 = 0x8000_0000;

/// A run of blocks in the table, with the runs before and after it in its list.
#[derive(Clone, Copy, PartialEq, Eq, Structural, Debug)]
pub struct Node {
    pub size: usize,
    pub prev: Option<usize>,
    pub next: Option<usize>,
}

/// Half of an entry as a number: the flag is the highest bit.
pub open spec fn half(index: u32, flag: bool) -> nat {
    index as nat + if flag {
        INDEX_END as nat
    } else {
        0
    }
}

impl Entry {
    /// The indices fit into 31 bits.
    pub open spec fn fits(self) -> bool {
        self.u_index < INDEX_END && self.v_index < INDEX_END
    }

    /// The bytes of an entry.
    pub open spec fn encode(self) -> Seq<u8> {
        le_bytes(half(self.u_index, self.u_flag), 4) + le_bytes(half(self.v_index, self.v_flag), 4)
    }

    /// The entry that eight bytes write down.
    pub open spec fn decode(s: Seq<u8>) -> Entry {
        let u = le32(s, 0);
        let v = le32(s, 4);
        Entry {
            u_index: (u % (INDEX_END as nat)) as u32,
            u_flag: u >= INDEX_END,
            v_index: (v % (INDEX_END as nat)) as u32,
            v_flag: v >= INDEX_END,
        }
    }

    pub proof fn lemma_decode_encode(self)
        requires
            self.fits(),
        ensures
            self.encode().len() == 8,
            Entry::decode(self.encode()) == self,
    {
        let u = half(self.u_index, self.u_flag);
        let v = half(self.v_index, self.v_flag);
        lemma_le32_of_bytes(u);
        lemma_le32_of_bytes(v);
        assert(self.encode().subrange(0, 4) =~= le_bytes(u, 4));
        assert(self.encode().subrange(4, 8) =~= le_bytes(v, 4));
    }
}

/// Entry `i` of the table, where it can be read.
pub open spec fn at<T: Content>(t: T, i: int) -> Option<Entry> {
    if 0 <= i && can_read(t, 8 * i, 8) {
        Some(Entry::decode(t.bytes().subrange(8 * i, 8 * i + 8)))
    } else {
        None
    }
}

pub proof fn lemma_at_fits<T: Content>(t: T, i: int)
    ensures
        at(t, i) matches Some(e) ==> e.fits(),
{
}

pub proof fn lemma_same_at<T: Content>(a: T, b: T)
    requires
        same_file(a, b),
    ensures
        forall|i: int| #[trigger] at(b, i) == at(a, i),
{
    assert forall|i: int| #[trigger] at(b, i) == at(a, i) by {
        if can_read(b, 8 * i, 8) {
            assert forall|k: int| 8 * i <= k < 8 * i + 8 implies #[trigger] a.readable(k) by {
                assert(b.readable(k));
            }
        }
        if can_read(a, 8 * i, 8) {
            assert forall|k: int| 8 * i <= k < 8 * i + 8 implies #[trigger] b.readable(k) by {
                assert(a.readable(k));
            }
        }
    }
}

/// Reads entry `i` of the table.
pub fn get_entry<T: RandomAccessFile>(table: &mut T, i: usize) -> (r: Result<Entry, Error>)
    requires
        old(table).inv(),
    ensures
        final(table).inv(),
        same_file(*old(table), *final(table)),
        r == match at(*old(table), i as int) {
            Some(e) => Ok::<Entry, Error>(e),
            None => Err(refused(*old(table), 8 * i, 8)),
        },
{
    let _total: usize = table.len();
    if i > (usize::MAX - 8) / 8 {
        return make_error(Error::OutOfBound);
    }
    let data: Vec<u8> = match table.load(i * ENTRY_LEN, ENTRY_LEN) {
        Ok(data) => data,
        Err(e) => {
            return Err(e);
        },
    };
    let u: u32 = read_u32(&data, 0);
    let v: u32 = read_u32(&data, 4);
    Ok(
        Entry {
            u_index: u % INDEX_END,
            u_flag: u >= INDEX_END,
            v_index: v % INDEX_END,
            v_flag: v >= INDEX_END,
        },
    )
}

/// In `b` every entry of `a` is kept but entry `i`, which is now `e`.
pub open spec fn entry_set<T: Content>(a: T, b: T, i: int, e: Entry) -> bool {
    &&& b.bytes().len() == a.bytes().len()
    &&& at(b, i) == Some(e)
    &&& forall|j: int| j != i && at(a, j) is Some ==> #[trigger] at(b, j) == at(a, j)
}

/// Writes entry `i` of the table.
pub fn set_entry<T: RandomAccessFile>(table: &mut T, i: usize, e: Entry) -> (r: Result<(), Error>)
    requires
        old(table).inv(),
        e.fits(),
    ensures
        final(table).inv(),
        final(table).bytes().len() == old(table).bytes().len(),
        8 * i + 8 <= old(table).bytes().len() ==> {
            &&& r == Ok::<(), Error>(())
            &&& entry_set(*old(table), *final(table), i as int, e)
            &&& final(table).bytes() == spliced(old(table).bytes(), 8 * i, e.encode())
        },
        8 * i + 8 > old(table).bytes().len() ==> {
            &&& r == Err::<(), Error>(Error::OutOfBound)
            &&& same_file(*old(table), *final(table))
        },
{
    let _total: usize = table.len();
    if i > (usize::MAX - 8) / 8 {
        return make_error(Error::OutOfBound);
    }
    let mut data: Vec<u8> = Vec::new();
    let u: u32 = if e.u_flag {
        e.u_index + INDEX_END
    } else {
        e.u_index
    };
    let v: u32 = if e.v_flag {
        e.v_index + INDEX_END
    } else {
        e.v_index
    };
    push_le(&mut data, u as u64, 4);
    push_le(&mut data, v as u64, 4);
    assert(data@ =~= e.encode());
    proof {
        e.lemma_decode_encode();
    }
    let r = table.write(i * ENTRY_LEN, &data);
    proof {
        let a = *old(table);
        let b = *table;
        if 8 * i + 8 <= a.bytes().len() {
            assert(b.bytes().subrange(8 * i, 8 * i + 8) =~= e.encode());
            assert forall|j: int| j != i && at(a, j) is Some implies #[trigger] at(b, j) == at(
                a,
                j,
            ) by {
                assert forall|k: int| 8 * j <= k < 8 * j + 8 implies #[trigger] b.readable(k) by {
                    assert(a.readable(k));
                }
                assert(b.bytes().subrange(8 * j, 8 * j + 8) =~= a.bytes().subrange(
                    8 * j,
                    8 * j + 8,
                ));
            }
        }
    }
    r
}

/// An index as it is kept in an entry: one more than the index, 0 for none.
pub open spec fn kept_index(index: Option<usize>) -> int {
    match index {
        None => 0,
        Some(i) => i + 1,
    }
}

/// What an index in an entry stands for.
pub open spec fn meant_index(index: u32) -> Option<usize> {
    if index == 0 {
        None
    } else {
        Some((index - 1) as usize)
    }
}

fn index_bad_to_good(index: u32) -> (r: Option<usize>)
    ensures
        r == meant_index(index),
        index > 0 ==> r == Some((index - 1) as usize),
{
    if index == 0 {
        None
    } else {
        Some(index as usize - 1)
    }
}

fn index_good_to_bad(index: Option<usize>) -> (r: u32)
    requires
        kept_index(index) < INDEX_END,
    ensures
        r == kept_index(index),
        meant_index(r) == index,
{
    match index {
        None => 0,
        Some(i) => i as u32 + 1,
    }
}

/// The node that starts at block `index`, or the error that reading it gives.
///
/// The entry after that of block `index` holds the links. The flag of its first half tells
/// that there is no node before it. The flag of its second half tells that the node has more
/// than one block: then the next entry and the entry of the last block both hold the entries
/// of the first and of the last block.
#[verifier::opaque]
pub open spec fn node_read<T: Content>(t: T, index: int) -> Result<Node, Error> {
    match at(t, index + 1) {
        None => Err(refused(t, 8 * (index + 1), 8)),
        Some(s) => if s.u_flag != (s.u_index == 0) {
            Err(Error::BrokenFat)
        } else if !s.v_flag {
            Ok(Node { size: 1, prev: meant_index(s.u_index), next: meant_index(s.v_index) })
        } else {
            match at(t, index + 2) {
                None => Err(refused(t, 8 * (index + 2), 8)),
                Some(x) => if !x.u_flag || x.v_flag || x.u_index != index + 1 {
                    Err(Error::BrokenFat)
                } else {
                    match at(t, x.v_index as int) {
                        None => Err(refused(t, 8 * x.v_index, 8)),
                        Some(y) => if x != y || x.v_index < x.u_index {
                            Err(Error::BrokenFat)
                        } else {
                            Ok(
                                Node {
                                    size: (x.v_index - x.u_index + 1) as usize,
                                    prev: meant_index(s.u_index),
                                    next: meant_index(s.v_index),
                                },
                            )
                        },
                    }
                },
            }
        },
    }
}

/// The indices and the size in a node that was read are small.
pub proof fn lemma_node_read_bounds<T: Content>(t: T, index: int)
    ensures
        node_read(t, index) matches Ok(n) ==> {
            &&& 1 <= n.size <= INDEX_END
            &&& kept_index(n.prev) < INDEX_END
            &&& kept_index(n.next) < INDEX_END
            &&& index + n.size < INDEX_END || n.size == 1
            &&& 8 * (index + n.size) + 8 <= t.bytes().len()
            &&& index >= -1
        },
{
    reveal(node_read);
    lemma_at_fits(t, index + 1);
    lemma_at_fits(t, index + 2);
}

/// Reads the node that starts at block `index`.
pub fn get_node<T: RandomAccessFile>(table: &mut T, index: usize) -> (r: Result<Node, Error>)
    requires
        old(table).inv(),
        index < INDEX_END,
    ensures
        final(table).inv(),
        same_file(*old(table), *final(table)),
        r == node_read(*old(table), index as int),
{
    proof {
        reveal(node_read);
    }
    let ghost t = *table;
    let node_start: Entry = match get_entry(table, index + 1) {
        Ok(e) => e,
        Err(e) => {
            return Err(e);
        },
    };
    proof {
        lemma_same_at(t, *table);
    }
    if node_start.u_flag != (node_start.u_index == 0) {
        return make_error(Error::BrokenFat);
    }
    let size: usize = if node_start.v_flag {
        let ghost t2 = *table;
        let expand_start: Entry = match get_entry(table, index + 2) {
            Ok(e) => e,
            Err(e) => {
                return Err(e);
            },
        };
        proof {
            lemma_same_at(t2, *table);
        }
        if !expand_start.u_flag || expand_start.v_flag || expand_start.u_index as usize != index
            + 1 {
            return make_error(Error::BrokenFat);
        }
        let ghost t3 = *table;
        let end_i: usize = expand_start.v_index as usize;
        let expand_end: Entry = match get_entry(table, end_i) {
            Ok(e) => e,
            Err(e) => {
                return Err(e);
            },
        };
        proof {
            lemma_same_at(t3, *table);
        }
        if expand_start != expand_end || expand_start.v_index < expand_start.u_index {
            return make_error(Error::BrokenFat);
        }
        (expand_start.v_index - expand_start.u_index) as usize + 1
    } else {
        1
    };
    Ok(
        Node {
            size,
            prev: index_bad_to_good(node_start.u_index),
            next: index_bad_to_good(node_start.v_index),
        },
    )
}

/// In `b` every entry of `a` is kept but those of blocks `lo` up to `hi`.
pub open spec fn kept_but<T: Content>(a: T, b: T, lo: int, hi: int) -> bool {
    &&& b.bytes().len() == a.bytes().len()
    &&& forall|j: int|
        !(lo <= j - 1 < hi) && at(a, j) is Some ==> #[trigger] at(b, j) == at(a, j)
}

/// Writes the node that starts at block `index`.
pub fn set_node<T: RandomAccessFile>(table: &mut T, index: usize, node: Node) -> (r: Result<
    (),
    Error,
>)
    requires
        old(table).inv(),
        node.size >= 1,
        index + node.size < INDEX_END,
        kept_index(node.prev) < INDEX_END,
        kept_index(node.next) < INDEX_END,
    ensures
        final(table).inv(),
        final(table).bytes().len() == old(table).bytes().len(),
        8 * (index + node.size) + 8 <= old(table).bytes().len() ==> {
            &&& r == Ok::<(), Error>(())
            &&& node_read(*final(table), index as int) == Ok::<Node, Error>(node)
            &&& kept_but(*old(table), *final(table), index as int, index + node.size)
        },
        8 * (index + node.size) + 8 > old(table).bytes().len() ==> r == Err::<(), Error>(
            Error::OutOfBound,
        ),
{
    proof {
        reveal(node_read);
    }
    let ghost t0 = *table;
    let node_start = Entry {
        u_flag: node.prev.is_none(),
        u_index: index_good_to_bad(node.prev),
        v_flag: node.size != 1,
        v_index: index_good_to_bad(node.next),
    };
    match set_entry(table, index + 1, node_start) {
        Ok(_) => {},
        Err(e) => {
            return Err(e);
        },
    }
    if node.size != 1 {
        let expand = Entry {
            u_flag: true,
            u_index: index_good_to_bad(Some(index)),
            v_flag: false,
            v_index: index_good_to_bad(Some(index + node.size - 1)),
        };
        match set_entry(table, index + 2, expand) {
            Ok(_) => {},
            Err(e) => {
                return Err(e);
            },
        }
        match set_entry(table, index + node.size, expand) {
            Ok(_) => {},
            Err(e) => {
                return Err(e);
            },
        }
    }
    Ok(())
}

/// The first free block as entry 0 tells it, or the error that reading it gives.
pub open spec fn head_read<T: Content>(t: T) -> Result<Option<usize>, Error> {
    match at(t, 0) {
        None => Err(refused(t, 0, 8)),
        Some(e) => if e.u_index != 0 || e.u_flag || e.v_flag {
            Err(Error::BrokenFat)
        } else {
            Ok(meant_index(e.v_index))
        },
    }
}

/// Reads the first free block.
pub fn get_head<T: RandomAccessFile>(table: &mut T) -> (r: Result<Option<usize>, Error>)
    requires
        old(table).inv(),
    ensures
        final(table).inv(),
        same_file(*old(table), *final(table)),
        r == head_read(*old(table)),
        r matches Ok(Some(i)) ==> i + 1 < INDEX_END,
{
    let head: Entry = match get_entry(table, 0) {
        Ok(e) => e,
        Err(e) => {
            return Err(e);
        },
    };
    proof {
        lemma_at_fits(*old(table), 0);
    }
    if head.u_index != 0 || head.u_flag || head.v_flag {
        return make_error(Error::BrokenFat);
    }
    Ok(index_bad_to_good(head.v_index))
}

/// Writes the first free block.
pub fn set_head<T: RandomAccessFile>(table: &mut T, index: Option<usize>) -> (r: Result<(), Error>)
    requires
        old(table).inv(),
        kept_index(index) < INDEX_END,
    ensures
        final(table).inv(),
        final(table).bytes().len() == old(table).bytes().len(),
        old(table).bytes().len() >= 8 ==> {
            &&& r == Ok::<(), Error>(())
            &&& head_read(*final(table)) == Ok::<Option<usize>, Error>(index)
            &&& kept_but(*old(table), *final(table), -1, 0)
        },
        old(table).bytes().len() < 8 ==> r == Err::<(), Error>(Error::OutOfBound),
{
    let head = Entry {
        u_flag: false,
        u_index: 0,
        v_flag: false,
        v_index: index_good_to_bad(index),
    };
    set_entry(table, 0, head)
}

} // verus!
