use crate::error::{make_error, Error};
use crate::memory_file::MemoryFile;
use crate::random_access_file::{copy_range, overwrite, Content};
use vstd::prelude::*;

verus! {

use crate::random_access_file::spliced;

/// A piece of a file, and where it is in the file.
pub type Slot = (int, Seq<u8>);

/// The bytes with the pieces written over them.
pub open spec fn overlay(base: Seq<u8>, s: Seq<Slot>) -> Seq<u8>
    decreases s.len(),
{
    if s.len() == 0 {
        base
    } else {
        spliced(overlay(base, s.drop_last()), s.last().0, s.last().1)
    }
}

/// The ranges have no position in common.
pub open spec fn ranges_apart(a: int, a_len: int, b: int, b_len: int) -> bool {
    a + a_len <= b || b + b_len <= a
}

/// Every piece is within the file, and no two overlap.
pub open spec fn slots_ok(n: int, s: Seq<Slot>) -> bool {
    &&& forall|k: int|
        0 <= k < s.len() ==> 0 <= (#[trigger] s[k]).0 && s[k].0 + s[k].1.len() <= n
    &&& forall|j: int, k: int|
        0 <= j < k < s.len() ==> ranges_apart(
            (#[trigger] s[j]).0,
            s[j].1.len() as int,
            (#[trigger] s[k]).0,
            s[k].1.len() as int,
        )
}

pub proof fn lemma_overlay_len(base: Seq<u8>, s: Seq<Slot>)
    ensures
        overlay(base, s).len() == base.len(),
    decreases s.len(),
{
    if s.len() > 0 {
        lemma_overlay_len(base, s.drop_last());
    }
}

/// The bytes with one more piece written over them.
pub proof fn lemma_overlay_push(base: Seq<u8>, s: Seq<Slot>, x: Slot)
    ensures
        overlay(base, s.push(x)) == spliced(overlay(base, s), x.0, x.1),
        overlay(base, s).len() == base.len(),
{
    assert(s.push(x).drop_last() =~= s);
    lemma_overlay_len(base, s);
}

pub proof fn lemma_slots_prefix(n: int, s: Seq<Slot>)
    requires
        slots_ok(n, s),
        s.len() > 0,
    ensures
        slots_ok(n, s.drop_last()),
{
    let t = s.drop_last();
    assert forall|k: int| 0 <= k < t.len() implies 0 <= (#[trigger] t[k]).0 && t[k].0
        + t[k].1.len() <= n by {
        assert(t[k] == s[k]);
    }
    assert forall|j: int, k: int| 0 <= j < k < t.len() implies ranges_apart(
        (#[trigger] t[j]).0,
        t[j].1.len() as int,
        (#[trigger] t[k]).0,
        t[k].1.len() as int,
    ) by {
        assert(t[j] == s[j] && t[k] == s[k]);
    }
}

/// A piece that was written is there.
pub proof fn lemma_overlay_slot(base: Seq<u8>, s: Seq<Slot>, k: int)
    requires
        slots_ok(base.len() as int, s),
        0 <= k < s.len(),
    ensures
        overlay(base, s).subrange(s[k].0, s[k].0 + s[k].1.len()) == s[k].1,
    decreases s.len(),
{
    let t = s.drop_last();
    let o = overlay(base, t);
    lemma_overlay_len(base, t);
    lemma_slots_prefix(base.len() as int, s);
    let a = s[k].0;
    let b = s[k].0 + s[k].1.len();
    if k == s.len() - 1 {
        assert(overlay(base, s).subrange(a, b) =~= s[k].1);
    } else {
        assert(t[k] == s[k]);
        lemma_overlay_slot(base, t, k);
        assert(ranges_apart(s[k].0, s[k].1.len() as int, s[s.len() - 1].0, s.last().1.len() as int));
        assert(overlay(base, s).subrange(a, b) =~= o.subrange(a, b));
    }
}

/// What is in no piece is kept.
pub proof fn lemma_overlay_outside(base: Seq<u8>, s: Seq<Slot>, pos: int, len: int)
    requires
        0 <= pos,
        0 <= len,
        pos + len <= base.len(),
        forall|k: int|
            0 <= k < s.len() ==> ranges_apart(
                pos,
                len,
                (#[trigger] s[k]).0,
                s[k].1.len() as int,
            ),
    ensures
        overlay(base, s).subrange(pos, pos + len) == base.subrange(pos, pos + len),
    decreases s.len(),
{
    if s.len() > 0 {
        let t = s.drop_last();
        assert forall|k: int| 0 <= k < t.len() implies ranges_apart(
            pos,
            len,
            (#[trigger] t[k]).0,
            t[k].1.len() as int,
        ) by {
            assert(t[k] == s[k]);
        }
        lemma_overlay_outside(base, t, pos, len);
        lemma_overlay_len(base, t);
        assert(ranges_apart(pos, len, s[s.len() - 1].0, s.last().1.len() as int));
        assert(overlay(base, s).subrange(pos, pos + len) =~= overlay(base, t).subrange(
            pos,
            pos + len,
        ));
    }
}

/// Writing the pieces again that are in the file changes nothing.
pub proof fn lemma_overlay_same(base: Seq<u8>, s: Seq<Slot>)
    requires
        slots_ok(base.len() as int, s),
        forall|k: int|
            0 <= k < s.len() ==> base.subrange(
                (#[trigger] s[k]).0,
                s[k].0 + s[k].1.len(),
            ) == s[k].1,
    ensures
        overlay(base, s) == base,
    decreases s.len(),
{
    if s.len() > 0 {
        let t = s.drop_last();
        lemma_slots_prefix(base.len() as int, s);
        assert forall|k: int| 0 <= k < t.len() implies base.subrange(
            (#[trigger] t[k]).0,
            t[k].0 + t[k].1.len(),
        ) == t[k].1 by {
            assert(t[k] == s[k]);
        }
        lemma_overlay_same(base, t);
        let l = s[s.len() - 1];
        assert(base.subrange(l.0, l.0 + l.1.len()) == l.1);
        assert(spliced(base, l.0, l.1) =~= base) by {
            assert forall|i: int| 0 <= i < base.len() implies spliced(base, l.0, l.1)[i]
                == base[i] by {
                if l.0 <= i < l.0 + l.1.len() {
                    assert(base.subrange(l.0, l.0 + l.1.len())[i - l.0] == base[i]);
                }
            }
        }
    }
}

/// A range of a file.
#[derive(Clone, Copy, PartialEq, Eq, Structural, Debug)]
pub struct Range {
    pub offset: u64,
    pub len: u64,
}

/// Every range is within a file of `n` bytes.
pub open spec fn ranges_within(n: int, r: Seq<Range>) -> bool {
    forall|k: int| 0 <= k < r.len() ==> (#[trigger] r[k]).offset + r[k].len <= n
}

/// Every range is within a file of `n` bytes, and no two overlap.
pub open spec fn ranges_ok(n: int, r: Seq<Range>) -> bool {
    &&& ranges_within(n, r)
    &&& forall|j: int, k: int|
        0 <= j < k < r.len() ==> ranges_apart(
            (#[trigger] r[j]).offset as int,
            r[j].len as int,
            (#[trigger] r[k]).offset as int,
            r[k].len as int,
        )
}

/// The error for ranges that are not within a file or overlap.
pub open spec fn ranges_error(n: int, r: Seq<Range>) -> Error {
    if !ranges_within(n, r) {
        Error::OutOfBound
    } else {
        Error::InvalidValue
    }
}

/// Checks that every range is within a file of `n` bytes, and that no two overlap.
pub fn check_ranges(n: usize, r: &Vec<Range>) -> (res: Result<(), Error>)
    ensures
        match res {
            Ok(_) => ranges_ok(n as int, r@),
            Err(e) => !ranges_ok(n as int, r@) && e == ranges_error(n as int, r@),
        },
{
    let count: usize = r.len();
    let mut k: usize = 0;
    while k < count
        invariant
            k <= count == r@.len(),
            forall|i: int| 0 <= i < k ==> (#[trigger] r@[i]).offset + r@[i].len <= n,
        decreases count - k,
    {
        let x: Range = r[k];
        if x.len > n as u64 || x.offset > n as u64 - x.len {
            assert(r@[k as int].offset + r@[k as int].len > n);
            return make_error(Error::OutOfBound);
        }
        k = k + 1;
    }
    let mut k: usize = 0;
    while k < count
        invariant
            k <= count == r@.len(),
            forall|i: int| 0 <= i < count ==> (#[trigger] r@[i]).offset + r@[i].len <= n,
            forall|i: int, j: int|
                0 <= i < j < k ==> ranges_apart(
                    (#[trigger] r@[i]).offset as int,
                    r@[i].len as int,
                    (#[trigger] r@[j]).offset as int,
                    r@[j].len as int,
                ),
        decreases count - k,
    {
        let x: Range = r[k];
        let mut j: usize = 0;
        while j < k
            invariant
                j <= k < count == r@.len(),
                x == r@[k as int],
                x.offset + x.len <= n,
                forall|i: int| 0 <= i < count ==> (#[trigger] r@[i]).offset + r@[i].len <= n,
                forall|i: int|
                    0 <= i < j ==> ranges_apart(
                        (#[trigger] r@[i]).offset as int,
                        r@[i].len as int,
                        x.offset as int,
                        x.len as int,
                    ),
            decreases k - j,
        {
            let y: Range = r[j];
            assert(r@[j as int].offset + r@[j as int].len <= n);
            if !(y.offset + y.len <= x.offset || x.offset + x.len <= y.offset) {
                assert(!ranges_apart(
                    r@[j as int].offset as int,
                    r@[j as int].len as int,
                    r@[k as int].offset as int,
                    r@[k as int].len as int,
                ));
                return make_error(Error::InvalidValue);
            }
            j = j + 1;
        }
        k = k + 1;
    }
    Ok(())
}

/// The range of some bytes.
pub open spec fn cut(s: Seq<u8>, r: Range) -> Seq<u8> {
    s.subrange(r.offset as int, r.offset + r.len)
}

/// Copies out a range.
pub fn take_range(p: &Vec<u8>, r: Range) -> (f: MemoryFile)
    requires
        r.offset + r.len <= p@.len(),
    ensures
        f.bytes() == cut(p@, r),
{
    let _n: usize = p.len();
    MemoryFile::new(copy_range(p, r.offset as usize, r.len as usize))
}

/// Writes one of the pieces of a file.
pub(crate) fn put_slot(
    out: &mut Vec<u8>,
    offset: u64,
    data: &Vec<u8>,
    Ghost(base): Ghost<Seq<u8>>,
    Ghost(all): Ghost<Seq<Slot>>,
    Ghost(k): Ghost<int>,
)
    requires
        0 <= k < all.len(),
        slots_ok(base.len() as int, all),
        all[k] == (offset as int, data@),
        old(out)@ == overlay(base, all.take(k)),
        base.len() <= usize::MAX,
    ensures
        final(out)@ == overlay(base, all.take(k + 1)),
{
    proof {
        lemma_overlay_push(base, all.take(k), all[k]);
        assert(all.take(k + 1) =~= all.take(k).push(all[k]));
    }
    overwrite(out, offset as usize, data);
}

} // verus!
