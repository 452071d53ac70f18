use vstd::arithmetic::div_mod::*;
use vstd::prelude::*;

verus! {

/// The number that the bytes of `s` write down, the most significant byte first.
pub open spec fn number(s: Seq<u8>) -> nat
    decreases s.len(),
{
    if s.len() == 0 {
        0
    } else {
        number(s.drop_last()) * 256 + s.last() as nat
    }
}

/// The last `n` bytes of the number `v`, the most significant byte first.
pub open spec fn be_bytes(v: nat, n: nat) -> Seq<u8>
    decreases n,
{
    if n == 0 {
        Seq::empty()
    } else {
        be_bytes(v / 256, (n - 1) as nat).push((v % 256) as u8)
    }
}

pub proof fn lemma_be_bytes_len(v: nat, n: nat)
    ensures
        be_bytes(v, n).len() == n,
    decreases n,
{
    if n > 0 {
        lemma_be_bytes_len(v / 256, (n - 1) as nat);
    }
}

/// Writing a number down and reading it gives the number, as far as `n` bytes can hold it.
pub proof fn lemma_number_be_bytes(v: nat, n: nat)
    requires
        v < vstd::arithmetic::power::pow(256, n),
    ensures
        number(be_bytes(v, n)) == v,
    decreases n,
{
    vstd::arithmetic::power::lemma_pow0(256);
    if n > 0 {
        let m = (n - 1) as nat;
        assert(vstd::arithmetic::power::pow(256, n) == 256 * vstd::arithmetic::power::pow(256, m))
            by {
            reveal(vstd::arithmetic::power::pow);
        }
        assert(v / 256 < vstd::arithmetic::power::pow(256, m)) by (nonlinear_arith)
            requires
                v < 256 * vstd::arithmetic::power::pow(256, m),
        ;
        lemma_number_be_bytes(v / 256, m);
        assert(be_bytes(v, n).drop_last() =~= be_bytes(v / 256, m));
    }
}

/// Reading bytes and writing the number down gives the bytes.
pub proof fn lemma_be_bytes_number(s: Seq<u8>)
    ensures
        be_bytes(number(s), s.len()) == s,
    decreases s.len(),
{
    if s.len() > 0 {
        lemma_be_bytes_number(s.drop_last());
        let v = number(s);
        assert(v / 256 == number(s.drop_last()) && v % 256 == s.last());
        assert(s =~= s.drop_last().push(s.last()));
    } else {
        assert(be_bytes(number(s), 0) =~= s);
    }
}

} // verus!
