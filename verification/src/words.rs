use vstd::prelude::*;

verus! {

use crate::fields::field;
use crate::little_endian::{le32, le64, le_bytes, le_number};

/// The number that four bytes from a position on write down, the lowest byte first.
pub open spec fn word4(s: Seq<u8>, at: int) -> int {
    s[at] + 0x100 * s[at + 1] + 0x1_0000 * s[at + 2] + 0x100_0000 * s[at + 3]
}

/// The number that eight bytes from a position on write down, the lowest byte first.
pub open spec fn word8(s: Seq<u8>, at: int) -> int {
    word4(s, at) + 0x1_0000_0000 * word4(s, at + 4)
}

/// The four bytes from a position on.
pub open spec fn four(s: Seq<u8>, at: int) -> Seq<u8> {
    s.subrange(at, at + 4)
}

/// The eight bytes from a position on.
pub open spec fn eight(s: Seq<u8>, at: int) -> Seq<u8> {
    s.subrange(at, at + 8)
}

/// Bytes of a file are read as numbers with the lowest byte first.
pub proof fn law_read_lowest_first(s: Seq<u8>, at: int)
    requires
        0 <= at,
    ensures
        at + 1 <= s.len() ==> field(s, at, 1) == s[at],
        at + 4 <= s.len() ==> field(s, at, 4) == word4(s, at),
        at + 8 <= s.len() ==> field(s, at, 8) == word8(s, at),
        at + 4 <= s.len() ==> le32(s, at) == word4(s, at),
        at + 8 <= s.len() ==> le64(s, at) == word8(s, at),
{
    reveal_with_fuel(le_number, 9);
    if at + 1 <= s.len() {
        let a = s.subrange(at, at + 1);
        assert(a.skip(1).len() == 0);
    }
    if at + 4 <= s.len() {
        lemma_number4(s.subrange(at, at + 4));
    }
    if at + 8 <= s.len() {
        lemma_number8(s.subrange(at, at + 8));
    }
}

proof fn lemma_number4(a: Seq<u8>)
    requires
        a.len() == 4,
    ensures
        le_number(a) == word4(a, 0),
{
    let b = a.skip(1);
    let c = b.skip(1);
    let d = c.skip(1);
    let e = d.skip(1);
    assert(e.len() == 0);
    assert(le_number(e) == 0);
    assert(le_number(d) == a[3]);
    assert(le_number(c) == a[2] + 256 * le_number(d));
    assert(le_number(b) == a[1] + 256 * le_number(c));
    assert(le_number(a) == a[0] + 256 * le_number(b));
}

proof fn lemma_number8(a: Seq<u8>)
    requires
        a.len() == 8,
    ensures
        le_number(a) == word8(a, 0),
{
    let b = a.skip(1);
    let c = b.skip(1);
    let d = c.skip(1);
    let e = d.skip(1);
    assert(le_number(a) == a[0] + 256 * le_number(b));
    assert(le_number(b) == a[1] + 256 * le_number(c));
    assert(le_number(c) == a[2] + 256 * le_number(d));
    assert(le_number(d) == a[3] + 256 * le_number(e));
    lemma_number4(e);
}

/// Four bytes are told by the number that they write down.
pub proof fn lemma_word4_bytes(s: Seq<u8>, t: Seq<u8>, at: int)
    requires
        0 <= at,
        at + 4 <= s.len(),
        t.len() == 4,
    ensures
        word4(s, at) == word4(t, 0) <==> four(s, at) == t,
        0 <= word4(s, at) < 0x1_0000_0000,
{
    if word4(s, at) == word4(t, 0) {
        assert(s[at] == t[0] && s[at + 1] == t[1] && s[at + 2] == t[2] && s[at + 3] == t[3]);
        assert(four(s, at) =~= t);
    }
    if four(s, at) == t {
        assert(four(s, at)[0] == s[at] && four(s, at)[1] == s[at + 1] && four(s, at)[2] == s[at + 2]
            && four(s, at)[3] == s[at + 3]);
    }
}

/// Eight bytes are told by the number that they write down.
pub proof fn lemma_word8_bytes(s: Seq<u8>, t: Seq<u8>, at: int)
    requires
        0 <= at,
        at + 8 <= s.len(),
        t.len() == 8,
    ensures
        word8(s, at) == word8(t, 0) <==> eight(s, at) == t,
        0 <= word8(s, at) < 0x1_0000_0000_0000_0000,
{
    lemma_word4_bytes(s, four(t, 0), at);
    lemma_word4_bytes(s, four(t, 4), at + 4);
    lemma_word4_bytes(t, four(t, 0), 0);
    lemma_word4_bytes(t, four(t, 4), 4);
    assert(word4(four(t, 0), 0) == word4(t, 0) && word4(four(t, 4), 0) == word4(t, 4));
    if word8(s, at) == word8(t, 0) {
        assert(word4(s, at) == word4(t, 0) && word4(s, at + 4) == word4(t, 4));
        assert forall|i: int| 0 <= i < 8 implies eight(s, at)[i] == t[i] by {
            if i < 4 {
                assert(four(s, at)[i] == four(t, 0)[i]);
            } else {
                assert(four(s, at + 4)[i - 4] == four(t, 4)[i - 4]);
            }
        }
        assert(eight(s, at) =~= t);
    }
    if eight(s, at) == t {
        assert(four(s, at) =~= four(t, 0));
        assert(four(s, at + 4) =~= four(t, 4));
    }
}

/// Numbers are written down with the lowest byte first.
pub proof fn law_written_lowest_first(v: nat)
    ensures
        le_bytes(v, 4).len() == 4,
        le_bytes(v, 8).len() == 8,
        v < 0x1_0000_0000 ==> word4(le_bytes(v, 4), 0) == v,
        v < 0x1_0000_0000_0000_0000 ==> word8(le_bytes(v, 8), 0) == v,
{
    crate::little_endian::lemma_le_bytes_len(v, 4);
    crate::little_endian::lemma_le_bytes_len(v, 8);
    crate::fields::lemma_pow256();
    let a = le_bytes(v, 4);
    let b = le_bytes(v, 8);
    if v < 0x1_0000_0000 {
        crate::little_endian::lemma_le_number_of_bytes(v, 4);
        lemma_number4(a);
    }
    if v < 0x1_0000_0000_0000_0000 {
        crate::little_endian::lemma_le_number_of_bytes(v, 8);
        lemma_number8(b);
    }
}

} // verus!
