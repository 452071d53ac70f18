use crate::little_endian::push_le;
use vstd::prelude::*;

verus! {

use crate::little_endian::{le_bytes, le_number, lemma_le_bytes_len, lemma_le_number_of_bytes};
use vstd::arithmetic::power::pow;

/// The fields of a header, each with its value and its length in bytes.
pub type Fields = Seq<(nat, nat)>;

/// The bytes of a header: its fields one after the other, each in little endian.
pub open spec fn packed(f: Fields) -> Seq<u8>
    decreases f.len(),
{
    if f.len() == 0 {
        Seq::empty()
    } else {
        packed(f.drop_last()) + le_bytes(f.last().0, f.last().1)
    }
}

/// Where field `k` starts.
pub open spec fn start(f: Fields, k: int) -> nat
    decreases k,
{
    if k <= 0 {
        0
    } else {
        start(f, k - 1) + f[k - 1].1
    }
}

/// The number in `n` bytes from `pos` on.
pub open spec fn field(s: Seq<u8>, pos: int, n: int) -> nat {
    le_number(s.subrange(pos, pos + n))
}

/// A field is the same in bytes that agree around it.
pub proof fn lemma_field_same(d: Seq<u8>, e: Seq<u8>, a: int, b: int, pos: int, n: int)
    requires
        d.subrange(a, b) == e.subrange(a, b),
        0 <= a <= pos,
        0 <= n,
        pos + n <= b <= d.len(),
        b <= e.len(),
    ensures
        field(d, pos, n) == field(e, pos, n),
{
    assert(d.subrange(pos, pos + n) =~= d.subrange(a, b).subrange(pos - a, pos - a + n));
    assert(e.subrange(pos, pos + n) =~= e.subrange(a, b).subrange(pos - a, pos - a + n));
}

/// A field of one byte.
pub proof fn lemma_field_byte(d: Seq<u8>, pos: int)
    requires
        0 <= pos < d.len(),
    ensures
        field(d, pos, 1) == d[pos],
{
    let b = d.subrange(pos, pos + 1);
    assert(b.skip(1) =~= Seq::empty());
    reveal_with_fuel(le_number, 2);
    assert(b[0] == d[pos]);
}

/// Each value fits in its field.
pub open spec fn fits(f: Fields) -> bool {
    forall|k: int| 0 <= k < f.len() ==> (#[trigger] f[k]).0 < pow(256, f[k].1)
}

pub proof fn lemma_start_prefix(f: Fields, k: int)
    requires
        0 <= k < f.len(),
    ensures
        start(f.drop_last(), k) == start(f, k),
    decreases k,
{
    if k > 0 {
        lemma_start_prefix(f, k - 1);
        assert(f.drop_last()[k - 1] == f[k - 1]);
    }
}

pub proof fn lemma_packed_len(f: Fields)
    ensures
        packed(f).len() == start(f, f.len() as int),
    decreases f.len(),
{
    if f.len() > 0 {
        lemma_packed_len(f.drop_last());
        lemma_start_prefix(f, f.len() - 1);
        lemma_le_bytes_len(f.last().0, f.last().1);
    }
}

pub proof fn lemma_start_mono(f: Fields, j: int, k: int)
    requires
        0 <= j <= k,
    ensures
        start(f, j) <= start(f, k),
    decreases k - j,
{
    if j < k {
        lemma_start_mono(f, j, k - 1);
    }
}

/// The bytes of a header hold the value of each field.
pub proof fn lemma_field_bytes(f: Fields, k: int)
    requires
        0 <= k < f.len(),
    ensures
        start(f, k) + f[k].1 <= packed(f).len(),
        packed(f).subrange(start(f, k) as int, (start(f, k) + f[k].1) as int) == le_bytes(
            f[k].0,
            f[k].1,
        ),
    decreases f.len(),
{
    lemma_packed_len(f);
    lemma_packed_len(f.drop_last());
    lemma_le_bytes_len(f.last().0, f.last().1);
    lemma_start_prefix(f, f.len() - 1);
    let a = start(f, k) as int;
    let b = (start(f, k) + f[k].1) as int;
    if k == f.len() - 1 {
        assert(packed(f).subrange(a, b) =~= le_bytes(f[k].0, f[k].1));
    } else {
        lemma_field_bytes(f.drop_last(), k);
        lemma_start_prefix(f, k);
        assert(f.drop_last()[k] == f[k]);
        assert(packed(f).subrange(a, b) =~= packed(f.drop_last()).subrange(a, b));
    }
}

/// Reading a field of a header gives its value.
pub proof fn lemma_field(f: Fields, k: int)
    requires
        0 <= k < f.len(),
        f[k].0 < pow(256, f[k].1),
    ensures
        start(f, k) + f[k].1 <= packed(f).len(),
        field(packed(f), start(f, k) as int, f[k].1 as int) == f[k].0,
{
    lemma_field_bytes(f, k);
    lemma_le_number_of_bytes(f[k].0, f[k].1);
}

pub proof fn lemma_pow256()
    ensures
        pow(256, 1) == 0x100,
        pow(256, 2) == 0x1_0000,
        pow(256, 4) == 0x1_0000_0000,
        pow(256, 8) == 0x1_0000_0000_0000_0000,
{
    reveal_with_fuel(pow, 9);
}

/// A field of a part of some bytes.
pub proof fn lemma_field_in(d: Seq<u8>, a: int, b: int, pos: int, n: int)
    requires
        0 <= a <= pos,
        0 <= n,
        pos + n <= b <= d.len(),
    ensures
        field(d, pos, n) == field(d.subrange(a, b), pos - a, n),
{
    assert(d.subrange(pos, pos + n) =~= d.subrange(a, b).subrange(pos - a, pos - a + n));
}

/// Writes a header out of its fields.
pub struct Packer {
    pub out: Vec<u8>,
    pub fields: Ghost<Fields>,
}

impl Packer {
    pub open spec fn inv(&self) -> bool {
        self.out@ == packed(self.fields@)
    }

    pub fn new() -> (p: Packer)
        ensures
            p.inv(),
            p.fields@ == Seq::<(nat, nat)>::empty(),
    {
        Packer { out: Vec::new(), fields: Ghost(Seq::empty()) }
    }

    /// Adds a field of `n` bytes.
    pub fn put(&mut self, v: u64, n: usize)
        requires
            old(self).inv(),
        ensures
            final(self).inv(),
            final(self).fields@ == old(self).fields@.push((v as nat, n as nat)),
    {
        push_le(&mut self.out, v, n);
        self.fields = Ghost(self.fields@.push((v as nat, n as nat)));
        assert(self.fields@.drop_last() =~= old(self).fields@);
    }
}

} // verus!
