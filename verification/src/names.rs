use crate::little_endian::{push_le, read_le};
use crate::random_access_file::copy_range;
use vstd::prelude::*;

verus! {

use crate::little_endian::{
    le_bytes, le_number, lemma_le_bytes_len, lemma_le_bytes_of_number, lemma_le_number_bound,
};
use crate::paths::{hex_digit, hex_text};
use vstd::arithmetic::power::pow;

/// The characters that stand for themselves in the name of a host file.
pub open spec fn legal(c: u8) -> bool {
    32 <= c < 127 && c != 0x2F && c != 0x5C
}

/// Tells whether a character stands for itself in the name of a host file.
pub fn is_legal_char(c: u8) -> (r: bool)
    ensures
        r == legal(c),
{
    c >= 32 && c < 127 && c != 0x2F && c != 0x5C
}

/// A byte of a name as text: itself, or `\x` and two digits.
pub open spec fn byte_text(c: u8) -> Seq<u8> {
    if legal(c) {
        seq![c]
    } else {
        seq![0x5Cu8, 0x78, hex_digit(c as int / 16), hex_digit(c as int % 16)]
    }
}

/// The bytes of a name as text.
pub open spec fn bytes_text(s: Seq<u8>) -> Seq<u8>
    decreases s.len(),
{
    if s.len() == 0 {
        Seq::empty()
    } else {
        bytes_text(s.drop_last()) + byte_text(s.last())
    }
}

/// How many bytes of a name are shown: all up to the last that is not zero, and at least one.
pub open spec fn shown_len(name: Seq<u8>, n: nat) -> nat
    decreases n,
{
    if n <= 1 || name[n - 1] != 0 {
        n
    } else {
        shown_len(name, (n - 1) as nat)
    }
}

/// A name as text.
pub open spec fn name_text(name: Seq<u8>) -> Seq<u8> {
    bytes_text(name.take(shown_len(name, 16) as int))
}

fn push_byte(out: &mut Vec<u8>, c: u8)
    ensures
        final(out)@ == old(out)@ + byte_text(c),
{
    let ghost before = out@;
    if is_legal_char(c) {
        out.push(c);
    } else {
        out.push(0x5C);
        out.push(0x78);
        out.push(digit(c / 16));
        out.push(digit(c % 16));
    }
    assert(out@ =~= before + byte_text(c));
}

/// Writes a digit of a number in base 16.
pub fn digit(d: u8) -> (r: u8)
    requires
        d < 16,
    ensures
        r == hex_digit(d as int),
{
    if d < 10 {
        0x30 + d
    } else {
        0x61 + (d - 10)
    }
}

/// Writes a name of 16 bytes as text.
pub fn name_3ds_to_str(name: &[u8]) -> (r: Vec<u8>)
    requires
        name@.len() == 16,
    ensures
        r@ == name_text(name@),
{
    let mut n: usize = 16;
    while n > 1 && name[n - 1] == 0
        invariant
            1 <= n <= 16,
            name@.len() == 16,
            shown_len(name@, 16) == shown_len(name@, n as nat),
        decreases n,
    {
        n = n - 1;
    }
    let mut out: Vec<u8> = Vec::new();
    let mut i: usize = 0;
    assert(name@.take(0) =~= Seq::<u8>::empty());
    while i < n
        invariant
            i <= n <= 16,
            name@.len() == 16,
            out@ == bytes_text(name@.take(i as int)),
        decreases n - i,
    {
        push_byte(&mut out, name[i]);
        i = i + 1;
        assert(name@.take(i as int).drop_last() =~= name@.take(i - 1));
    }
    out
}

/// The value of a digit to the base of sixteen.
pub open spec fn digit_value(c: u8) -> Option<int> {
    if 0x30 <= c <= 0x39 {
        Some(c - 0x30)
    } else if 0x61 <= c <= 0x66 {
        Some(c - 0x61 + 10)
    } else if 0x41 <= c <= 0x46 {
        Some(c - 0x41 + 10)
    } else {
        None
    }
}

/// The number that digits to the base of sixteen write.
pub open spec fn digits_value(s: Seq<u8>) -> Option<int>
    decreases s.len(),
{
    if s.len() == 0 {
        Some(0)
    } else {
        match (digits_value(s.drop_last()), digit_value(s.last())) {
            (Some(v), Some(d)) => Some(v * 16 + d),
            _ => None,
        }
    }
}

/// The number that a text writes to the base of sixteen: one digit or more, up to `most`, and
/// nothing else.
pub open spec fn hex_value(s: Seq<u8>, most: int) -> Option<int> {
    if 1 <= s.len() <= most {
        digits_value(s)
    } else {
        None
    }
}

fn value_of(c: u8) -> (r: Option<u8>)
    ensures
        match r {
            Some(d) => digit_value(c) == Some(d as int) && d < 16,
            None => digit_value(c) is None,
        },
{
    if 0x30 <= c && c <= 0x39 {
        Some(c - 0x30)
    } else if 0x61 <= c && c <= 0x66 {
        Some(c - 0x61 + 10)
    } else if 0x41 <= c && c <= 0x46 {
        Some(c - 0x41 + 10)
    } else {
        None
    }
}

/// Once digits cannot be read, more digits do not help.
proof fn lemma_longer(s: Seq<u8>, n: int)
    requires
        0 <= n <= s.len(),
        digits_value(s.take(n)) is None,
    ensures
        digits_value(s) is None,
    decreases s.len() - n,
{
    if n == s.len() {
        assert(s.take(n) =~= s);
    } else {
        let t = s.take(n + 1);
        assert(t.drop_last() =~= s.take(n));
        lemma_longer(s, n + 1);
    }
}

proof fn lemma_room(n: nat)
    requires
        n < 16,
    ensures
        pow(16, n + 1) == 16 * pow(16, n),
        pow(16, n) <= 0x1000_0000_0000_0000,
{
    reveal(pow);
    assert(pow(16, 15) == 0x1000_0000_0000_0000) by {
        reveal_with_fuel(pow, 16);
    }
    vstd::arithmetic::power::lemma_pow_increases(16, n, 15);
}

/// Reads a number of up to `most` digits to the base of sixteen.
pub fn parse_hex(s: &[u8], most: usize) -> (r: Option<u64>)
    requires
        most <= 16,
    ensures
        match r {
            Some(v) => hex_value(s@, most as int) == Some(v as int) && v < pow(16, s@.len()),
            None => hex_value(s@, most as int) is None,
        },
{
    let n: usize = s.len();
    if n == 0 || n > most {
        return None;
    }
    let mut v: u64 = 0;
    let mut i: usize = 0;
    assert(s@.take(0) =~= Seq::<u8>::empty());
    assert(pow(16, 0) == 1) by {
        reveal(pow);
    }
    while i < n
        invariant
            i <= n == s@.len(),
            n <= 16,
            v < pow(16, i as nat),
            digits_value(s@.take(i as int)) == Some(v as int),
        decreases n - i,
    {
        proof {
            assert(s@.take(i + 1).drop_last() =~= s@.take(i as int));
            assert(s@.take(i + 1).last() == s@[i as int]);
            lemma_room(i as nat);
        }
        match value_of(s[i]) {
            None => {
                proof {
                    lemma_longer(s@, i + 1);
                }
                return None;
            },
            Some(x) => {
                v = v * 16 + x as u64;
            },
        }
        i = i + 1;
    }
    assert(s@.take(n as int) =~= s@);
    Some(v)
}

/// The bytes that a text names, from a position on. Each character names itself; `\x` and two
/// digits name the byte with that number.
pub open spec fn named_bytes(t: Seq<u8>) -> Option<Seq<u8>>
    decreases t.len(),
{
    if t.len() == 0 {
        Some(Seq::empty())
    } else if t[0] != 0x5C {
        match named_bytes(t.skip(1)) {
            Some(s) => Some(seq![t[0]] + s),
            None => None,
        }
    } else if t.len() < 4 || t[1] != 0x78 {
        None
    } else {
        match (hex_value(t.subrange(2, 4), 2), named_bytes(t.skip(4))) {
            (Some(v), Some(s)) => Some(seq![v as u8] + s),
            _ => None,
        }
    }
}

/// A name of 16 bytes with zeros at its end.
pub open spec fn filled(s: Seq<u8>) -> Seq<u8> {
    Seq::new(
        16,
        |i: int|
            if i < s.len() {
                s[i]
            } else {
                0
            },
    )
}

/// The name that a text names.
pub open spec fn named(t: Seq<u8>) -> Option<Seq<u8>> {
    match named_bytes(t) {
        Some(s) => if s.len() <= 16 {
            Some(filled(s))
        } else {
            None
        },
        None => None,
    }
}

/// What has been read, with what is still to be read.
spec fn with_rest(out: Seq<u8>, rest: Option<Seq<u8>>) -> Option<Seq<u8>> {
    match rest {
        Some(s) => Some(out + s),
        None => None,
    }
}

/// Reads a name of 16 bytes from text.
pub fn name_str_to_3ds(text: &[u8]) -> (r: Option<Vec<u8>>)
    ensures
        match r {
            Some(name) => named(text@) == Some(name@) && name@.len() == 16,
            None => named(text@) is None,
        },
{
    let mut out: Vec<u8> = Vec::new();
    let n: usize = text.len();
    let mut i: usize = 0;
    assert(text@.skip(0) =~= text@);
    proof {
        assert(with_rest(out@, named_bytes(text@)) == named_bytes(text@)) by {
            if named_bytes(text@) is Some {
                assert(out@ + named_bytes(text@)->0 =~= named_bytes(text@)->0);
            }
        }
    }
    while i < n
        invariant
            i <= n == text@.len(),
            out@.len() <= 16,
            named_bytes(text@) == with_rest(out@, named_bytes(text@.skip(i as int))),
        decreases n - i,
    {
        let ghost t = text@.skip(i as int);
        let ghost before = out@;
        if out.len() == 16 {
            proof {
                lemma_not_empty(t);
            }
            return None;
        }
        let c: u8 = text[i];
        if c != 0x5C {
            out.push(c);
            i = i + 1;
            proof {
                assert(t.skip(1) =~= text@.skip(i as int));
                lemma_rest(before, c, named_bytes(t.skip(1)));
            }
        } else {
            if n - i < 4 || text[i + 1] != 0x78 {
                return None;
            }
            let pair = copy_range(text, i + 2, 2);
            assert(pair@ =~= t.subrange(2, 4));
            match parse_hex(&pair, 2) {
                None => {
                    return None;
                },
                Some(v) => {
                    out.push(v as u8);
                    i = i + 4;
                    proof {
                        assert(t.skip(4) =~= text@.skip(i as int));
                        lemma_rest(before, v as u8, named_bytes(t.skip(4)));
                    }
                },
            }
        }
    }
    proof {
        assert(named_bytes(text@.skip(i as int)) == Some(Seq::<u8>::empty()));
        assert(out@ + Seq::<u8>::empty() =~= out@);
    }
    let ghost s = out@;
    while out.len() < 16
        invariant
            s.len() <= out@.len() <= 16,
            s.len() <= 16,
            out@ == filled(s).take(out@.len() as int),
        decreases 16 - out@.len(),
    {
        out.push(0);
        assert(out@ =~= filled(s).take(out@.len() as int));
    }
    assert(out@ =~= filled(s));
    Some(out)
}

proof fn lemma_not_empty(t: Seq<u8>)
    requires
        t.len() > 0,
    ensures
        named_bytes(t) matches Some(s) ==> s.len() >= 1,
{
}

proof fn lemma_rest(out: Seq<u8>, c: u8, rest: Option<Seq<u8>>)
    ensures
        with_rest(
            out,
            match rest {
                Some(s) => Some(seq![c] + s),
                None => None,
            },
        ) == with_rest(out.push(c), rest),
{
    if let Some(s) = rest {
        assert(out + (seq![c] + s) =~= out.push(c) + s);
    }
}

/// The bytes that text ends with are read after those before.
proof fn lemma_named_concat(a: Seq<u8>, b: Seq<u8>)
    requires
        named_bytes(a) is Some,
        named_bytes(b) is Some,
    ensures
        named_bytes(a + b) == Some(named_bytes(a)->0 + named_bytes(b)->0),
    decreases a.len(),
{
    let t = a + b;
    if a.len() == 0 {
        assert(t =~= b);
        assert(named_bytes(a)->0 + named_bytes(b)->0 =~= named_bytes(b)->0);
    } else if a[0] != 0x5C {
        assert(t.skip(1) =~= a.skip(1) + b);
        lemma_named_concat(a.skip(1), b);
        assert(seq![a[0]] + (named_bytes(a.skip(1))->0 + named_bytes(b)->0) =~= (seq![a[0]]
            + named_bytes(a.skip(1))->0) + named_bytes(b)->0);
    } else {
        assert(t.skip(4) =~= a.skip(4) + b);
        assert(t.subrange(2, 4) =~= a.subrange(2, 4));
        lemma_named_concat(a.skip(4), b);
        let v = hex_value(a.subrange(2, 4), 2)->0 as u8;
        assert(seq![v] + (named_bytes(a.skip(4))->0 + named_bytes(b)->0) =~= (seq![v]
            + named_bytes(a.skip(4))->0) + named_bytes(b)->0);
    }
}

proof fn lemma_byte_named(c: u8)
    ensures
        named_bytes(byte_text(c)) == Some(seq![c]),
{
    let t = byte_text(c);
    let e = Seq::<u8>::empty();
    assert(named_bytes(e) == Some(e));
    if legal(c) {
        assert(t.skip(1) =~= e);
        assert(seq![c] + e =~= seq![c]);
    } else {
        let d = t.subrange(2, 4);
        let h = hex_digit(c as int / 16);
        let l = hex_digit(c as int % 16);
        assert(d =~= seq![h, l]);
        assert(t.skip(4) =~= e);
        assert(d.drop_last() =~= seq![h]);
        assert(seq![h].drop_last() =~= e);
        assert(digits_value(e) == Some(0int));
        assert(digit_value(h) == Some(c as int / 16));
        assert(digit_value(l) == Some(c as int % 16));
        assert(seq![h].last() == h);
        assert(digits_value(seq![h]) == Some(c as int / 16));
        assert(digits_value(d) == Some(c as int));
        assert(seq![c] + e =~= seq![c]);
    }
}

proof fn lemma_bytes_named(s: Seq<u8>)
    ensures
        named_bytes(bytes_text(s)) == Some(s),
    decreases s.len(),
{
    if s.len() > 0 {
        lemma_bytes_named(s.drop_last());
        lemma_byte_named(s.last());
        lemma_named_concat(bytes_text(s.drop_last()), byte_text(s.last()));
        assert(s.drop_last() + seq![s.last()] =~= s);
    }
}

proof fn lemma_shown_len(name: Seq<u8>, n: nat)
    ensures
        shown_len(name, n) <= n,
        n >= 1 ==> shown_len(name, n) >= 1,
        forall|i: int| shown_len(name, n) <= i < n ==> name[i] == 0,
    decreases n,
{
    if n > 1 && name[n - 1] == 0 {
        lemma_shown_len(name, (n - 1) as nat);
    }
}

/// The text of a name names it.
pub proof fn law_name_round_trip(name: Seq<u8>)
    requires
        name.len() == 16,
    ensures
        named(name_text(name)) == Some(name),
{
    let s = name.take(shown_len(name, 16) as int);
    lemma_shown_len(name, 16);
    lemma_bytes_named(s);
    assert(filled(s) =~= name);
}

/// Where an argument begins in a text: at the first `\+`. None begins where there is none.
pub open spec fn argument_at(t: Seq<u8>, from: int) -> int
    decreases t.len() - from,
{
    if from < 0 || from + 1 >= t.len() {
        t.len() as int
    } else if t[from] == 0x5C && t[from + 1] == 0x2B {
        from
    } else {
        argument_at(t, from + 1)
    }
}

/// The name in a text, and the argument behind it.
pub open spec fn split_name(t: Seq<u8>) -> (Seq<u8>, Seq<u8>) {
    let k = argument_at(t, 0);
    if k < t.len() {
        (t.take(k), t.skip(k + 2))
    } else {
        (t, Seq::empty())
    }
}

/// How names are stored: as 16 bytes, or as a number of 64 bits.
#[derive(Clone, Copy, PartialEq, Eq, Structural, Debug)]
pub enum NameType {
    Text,
    Number,
}

impl NameType {
    /// The length of a stored name.
    pub open spec fn len(self) -> nat {
        match self {
            NameType::Text => 16,
            NameType::Number => 8,
        }
    }

    /// A stored name as text.
    pub open spec fn text(self, name: Seq<u8>) -> Seq<u8> {
        match self {
            NameType::Text => name_text(name),
            NameType::Number => hex_text(le_number(name) as int, 16),
        }
    }

    /// The stored name that a text names.
    pub open spec fn parsed(self, t: Seq<u8>) -> Option<Seq<u8>> {
        match self {
            NameType::Text => named(t),
            NameType::Number => match hex_value(t, 16) {
                Some(v) => Some(le_bytes(v as nat, 8)),
                None => None,
            },
        }
    }

    /// The stored name that a text names before its argument, with the argument.
    pub open spec fn parsed_os(self, t: Seq<u8>) -> Option<(Seq<u8>, Seq<u8>)> {
        match self.parsed(split_name(t).0) {
            Some(n) => Some((n, split_name(t).1)),
            None => None,
        }
    }

    /// Writes a stored name as text.
    pub fn name_3ds_to_str(&self, name: &[u8]) -> (r: Vec<u8>)
        requires
            name@.len() == self.len(),
        ensures
            r@ == self.text(name@),
    {
        match self {
            NameType::Text => name_3ds_to_str(name),
            NameType::Number => {
                let v: u64 = read_le(name, 0, 8);
                assert(name@.subrange(0, 8) =~= name@);
                hex16(v)
            },
        }
    }

    /// Reads a stored name from text.
    pub fn name_str_to_3ds(&self, text: &[u8]) -> (r: Option<Vec<u8>>)
        ensures
            match r {
                Some(n) => self.parsed(text@) == Some(n@) && n@.len() == self.len(),
                None => self.parsed(text@) is None,
            },
    {
        match self {
            NameType::Text => name_str_to_3ds(text),
            NameType::Number => match parse_hex(text, 16) {
                Some(v) => {
                    let mut out: Vec<u8> = Vec::new();
                    push_le(&mut out, v, 8);
                    proof {
                        lemma_le_bytes_len(v as nat, 8);
                        assert(out@ =~= le_bytes(v as nat, 8));
                    }
                    Some(out)
                },
                None => None,
            },
        }
    }

    /// Reads a stored name, and the argument behind it, from the name of a host file.
    pub fn name_os_to_3ds(&self, text: &[u8]) -> (r: Option<(Vec<u8>, Vec<u8>)>)
        ensures
            match r {
                Some(v) => self.parsed_os(text@) == Some((v.0@, v.1@)) && v.0@.len() == self.len(),
                None => self.parsed_os(text@) is None,
            },
    {
        let n: usize = text.len();
        let mut k: usize = 0;
        while k < n && !(n - k >= 2 && text[k] == 0x5C && text[k + 1] == 0x2B)
            invariant
                k <= n == text@.len(),
                argument_at(text@, 0) == argument_at(text@, k as int),
            decreases n - k,
        {
            k = k + 1;
        }
        let (left, right) = if k < n {
            (copy_range(text, 0, k), copy_range(text, k + 2, n - k - 2))
        } else {
            (copy_range(text, 0, n), Vec::new())
        };
        proof {
            assert(left@ =~= split_name(text@).0);
            assert(right@ =~= split_name(text@).1);
        }
        match self.name_str_to_3ds(&left) {
            Some(name) => Some((name, right)),
            None => None,
        }
    }
}

/// Writes a number with sixteen digits, to the base of sixteen.
fn hex16(v: u64) -> (r: Vec<u8>)
    ensures
        r@ == hex_text(v as int, 16),
{
    let mut rest: u64 = v;
    let mut out: Vec<u8> = Vec::new();
    let mut k: usize = 16;
    let ghost all = hex_text(v as int, 16);
    assert(all =~= hex_text(rest as int, 16) + out@);
    while k > 0
        invariant
            k <= 16,
            out@.len() == 16 - k,
            all == hex_text(rest as int, k as nat) + out@,
        decreases k,
    {
        let ghost before = out@;
        let c: u8 = digit((rest % 16) as u8);
        out.insert(0, c);
        proof {
            assert(hex_text(rest as int, k as nat) + before =~= hex_text(
                rest as int / 16,
                (k - 1) as nat,
            ) + (seq![c] + before));
            assert(out@ =~= seq![c] + before);
        }
        rest = rest / 16;
        k = k - 1;
    }
    assert(all =~= out@);
    out
}

proof fn lemma_hex_digits(v: int, n: nat)
    requires
        0 <= v < pow(16, n),
    ensures
        digits_value(hex_text(v, n)) == Some(v),
        hex_text(v, n).len() == n,
        forall|i: int| 0 <= i < n ==> #[trigger] hex_text(v, n)[i] != 0x2B && hex_text(v, n)[i] != 0x5C,
    decreases n,
{
    reveal(pow);
    if n > 0 {
        let w = (n - 1) as nat;
        assert(v / 16 < pow(16, w)) by (nonlinear_arith)
            requires
                0 <= v < 16 * pow(16, w),
        ;
        lemma_hex_digits(v / 16, w);
        let t = hex_text(v, n);
        assert(t.drop_last() =~= hex_text(v / 16, w));
    }
}

/// The text of a number names it.
pub proof fn law_number_round_trip(name: Seq<u8>)
    requires
        name.len() == 8,
    ensures
        NameType::Number.parsed(NameType::Number.text(name)) == Some(name),
{
    let v = le_number(name);
    lemma_le_number_bound(name);
    lemma_le_bytes_of_number(name);
    assert(pow(16, 16) == 0x1_0000_0000_0000_0000) by {
        reveal(pow);
        reveal_with_fuel(pow, 17);
    }
    lemma_hex_digits(v as int, 16);
    let t = hex_text(v as int, 16);
}

proof fn lemma_no_argument(t: Seq<u8>, from: int)
    requires
        0 <= from,
        forall|i: int| 0 <= i < t.len() - 1 ==> !(#[trigger] t[i] == 0x5C && t[i + 1] == 0x2B),
    ensures
        argument_at(t, from) == t.len(),
    decreases t.len() - from,
{
    if from + 1 < t.len() {
        lemma_no_argument(t, from + 1);
    }
}

proof fn lemma_text_plain(s: Seq<u8>)
    ensures
        ({
            let t = bytes_text(s);
            &&& forall|i: int| 0 <= i < t.len() - 1 ==> !(#[trigger] t[i] == 0x5C && t[i + 1] == 0x2B)
            &&& t.len() > 0 ==> t.last() != 0x5C
        }),
    decreases s.len(),
{
    if s.len() > 0 {
        let a = bytes_text(s.drop_last());
        let b = byte_text(s.last());
        let t = bytes_text(s);
        lemma_text_plain(s.drop_last());
        assert(b.last() != 0x5C);
        assert(t.last() == b.last());
        assert forall|i: int| 0 <= i < t.len() - 1 implies !(#[trigger] t[i] == 0x5C && t[i + 1]
            == 0x2B) by {
            if i < a.len() - 1 {
                assert(t[i] == a[i] && t[i + 1] == a[i + 1]);
            } else if i == a.len() - 1 {
                assert(t[i] == a.last());
            } else {
                assert(t[i] == b[i - a.len()] && t[i + 1] == b[i + 1 - a.len()]);
            }
        }
    }
}

/// A name that is shown to the host comes back as it was, and without an argument.
pub proof fn law_host_name_round_trip(k: NameType, name: Seq<u8>)
    requires
        name.len() == k.len(),
    ensures
        k.parsed_os(k.text(name)) == Some((name, Seq::<u8>::empty())),
{
    let t = k.text(name);
    match k {
        NameType::Text => {
            law_name_round_trip(name);
            lemma_text_plain(name.take(shown_len(name, 16) as int));
        },
        NameType::Number => {
            law_number_round_trip(name);
            lemma_le_number_bound(name);
            assert(pow(16, 16) == 0x1_0000_0000_0000_0000) by {
                reveal(pow);
                reveal_with_fuel(pow, 17);
            }
            lemma_hex_digits(le_number(name) as int, 16);
        },
    }
    lemma_no_argument(t, 0);
}

} // verus!
