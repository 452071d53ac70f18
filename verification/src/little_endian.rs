use vstd::arithmetic::power::*;
use vstd::prelude::*;

verus! {

/// The number that the bytes of `s` write down, the least significant byte first.
pub open spec fn le_number(s: Seq<u8>) -> nat
    decreases s.len(),
{
    if s.len() == 0 {
        0
    } else {
        s[0] as nat + 256 * le_number(s.skip(1))
    }
}

/// The lowest `n` bytes of the number `v`, the least significant byte first.
pub open spec fn le_bytes(v: nat, n: nat) -> Seq<u8>
    decreases n,
{
    if n == 0 {
        Seq::empty()
    } else {
        seq![(v % 256) as u8] + le_bytes(v / 256, (n - 1) as nat)
    }
}

/// The 32-bit number at position `pos`.
pub open spec fn le32(s: Seq<u8>, pos: int) -> nat {
    le_number(s.subrange(pos, pos + 4))
}

/// The 64-bit number at position `pos`.
pub open spec fn le64(s: Seq<u8>, pos: int) -> nat {
    le_number(s.subrange(pos, pos + 8))
}

pub proof fn lemma_le_bytes_len(v: nat, n: nat)
    ensures
        le_bytes(v, n).len() == n,
    decreases n,
{
    if n > 0 {
        lemma_le_bytes_len(v / 256, (n - 1) as nat);
    }
}

proof fn lemma_pow256(n: nat)
    ensures
        n > 0 ==> pow(256, n) == 256 * pow(256, (n - 1) as nat),
        pow(256, 0) == 1,
        pow(256, 1) == 0x100,
        pow(256, 2) == 0x1_0000,
        pow(256, 4) == 0x1_0000_0000,
        pow(256, 8) == 0x1_0000_0000_0000_0000,
{
    reveal_with_fuel(pow, 9);
}

pub proof fn lemma_le_number_bound(s: Seq<u8>)
    ensures
        le_number(s) < pow(256, s.len()),
        s.len() == 1 ==> le_number(s) < 0x100,
        s.len() == 2 ==> le_number(s) < 0x1_0000,
        s.len() == 4 ==> le_number(s) < 0x1_0000_0000,
        s.len() == 8 ==> le_number(s) < 0x1_0000_0000_0000_0000,
    decreases s.len(),
{
    lemma_pow256(s.len());
    if s.len() > 0 {
        lemma_le_number_bound(s.skip(1));
    }
}

/// Writing a number down and reading it gives the number, as far as `n` bytes can hold it.
pub proof fn lemma_le_number_of_bytes(v: nat, n: nat)
    requires
        v < pow(256, n),
    ensures
        le_number(le_bytes(v, n)) == v,
    decreases n,
{
    lemma_pow256(n);
    if n > 0 {
        assert(v / 256 < pow(256, (n - 1) as nat)) by (nonlinear_arith)
            requires
                v < 256 * pow(256, (n - 1) as nat),
        ;
        lemma_le_number_of_bytes(v / 256, (n - 1) as nat);
        assert(le_bytes(v, n).skip(1) =~= le_bytes(v / 256, (n - 1) as nat));
    }
}

pub proof fn lemma_le32_of_bytes(v: nat)
    requires
        v < 0x1_0000_0000,
    ensures
        le_number(le_bytes(v, 4)) == v,
        le_bytes(v, 4).len() == 4,
{
    lemma_pow256(4);
    lemma_le_number_of_bytes(v, 4);
    lemma_le_bytes_len(v, 4);
}

/// Reading bytes and writing the number down gives the bytes.
pub proof fn lemma_le_bytes_of_number(s: Seq<u8>)
    ensures
        le_bytes(le_number(s), s.len()) == s,
    decreases s.len(),
{
    if s.len() > 0 {
        lemma_le_bytes_of_number(s.skip(1));
        let v = le_number(s);
        assert(v % 256 == s[0] && v / 256 == le_number(s.skip(1)));
        assert(s =~= seq![s[0]] + s.skip(1));
    } else {
        assert(le_bytes(le_number(s), 0) =~= s);
    }
}

/// Reads the number that the `n` bytes at `pos` write down.
pub fn read_le(data: &[u8], pos: usize, n: usize) -> (v: u64)
    requires
        n <= 8,
        pos + n <= data@.len(),
    ensures
        v as nat == le_number(data@.subrange(pos as int, pos + n)),
{
    let _total: usize = data.len();
    let mut v: u64 = 0;
    let mut i: usize = n;
    assert(le_number(data@.subrange(pos + n, pos + n)) == 0);
    proof {
        lemma_pow256(0);
    }
    while i > 0
        invariant
            i <= n <= 8,
            pos + n <= data@.len() <= usize::MAX,
            v as nat == le_number(data@.subrange(pos + i, pos + n)),
            v < pow(256, (n - i) as nat),
        decreases i,
    {
        proof {
            let s = data@.subrange(pos + i - 1, pos + n);
            assert(s.skip(1) =~= data@.subrange(pos + i, pos + n));
            lemma_le_number_bound(s);
            lemma_pow256((n - i + 1) as nat);
            lemma_pow256(8);
            vstd::arithmetic::power::lemma_pow_increases(256, (n - i + 1) as nat, 8);
        }
        i -= 1;
        v = v * 256 + data[pos + i] as u64;
    }
    v
}

pub fn read_u32(data: &[u8], pos: usize) -> (v: u32)
    requires
        pos + 4 <= data@.len(),
    ensures
        v as nat == le32(data@, pos as int),
{
    proof {
        lemma_le_number_bound(data@.subrange(pos as int, pos + 4));
    }
    read_le(data, pos, 4) as u32
}

pub fn read_u64(data: &[u8], pos: usize) -> (v: u64)
    requires
        pos + 8 <= data@.len(),
    ensures
        v as nat == le64(data@, pos as int),
{
    read_le(data, pos, 8)
}

/// Appends the lowest `n` bytes of `v` to `out`.
pub fn push_le(out: &mut Vec<u8>, v: u64, n: usize)
    ensures
        final(out)@ == old(out)@ + le_bytes(v as nat, n as nat),
{
    let mut v: u64 = v;
    let mut i: usize = n;
    let ghost all = out@ + le_bytes(v as nat, n as nat);
    while i > 0
        invariant
            i <= n,
            all == out@ + le_bytes(v as nat, i as nat),
        decreases i,
    {
        let ghost before = out@;
        let ghost w = v;
        out.push((v % 256) as u8);
        v = v / 256;
        i -= 1;
        assert(before + le_bytes(w as nat, (i + 1) as nat) =~= out@ + le_bytes(
            v as nat,
            i as nat,
        ));
    }
    assert(out@ =~= all);
}

pub fn u32_bytes(v: u32) -> (out: Vec<u8>)
    ensures
        out@ == le_bytes(v as nat, 4),
        out@.len() == 4,
{
    proof {
        lemma_le_bytes_len(v as nat, 4);
    }
    let mut out: Vec<u8> = Vec::new();
    push_le(&mut out, v as u64, 4);
    assert(out@ =~= le_bytes(v as nat, 4));
    out
}

} // verus!
