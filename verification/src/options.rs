use crate::db::DbType;
use crate::error::{make_error, Error};
use crate::ext_data::ExtDataFormatParam;
use crate::meta_table::same_bytes;
use crate::names::parse_hex;
use crate::random_access_file::copy_range;
use crate::save_data::{SaveDataBlockType, SaveDataFormatParam};
use vstd::prelude::*;

verus! {

use crate::names::hex_value;
use vstd::arithmetic::power::pow;

/// None of the small primes divides a number.
pub open spec fn no_small_factor(c: int) -> bool {
    &&& c % 2 != 0
    &&& c % 3 != 0
    &&& c % 5 != 0
    &&& c % 7 != 0
    &&& c % 11 != 0
    &&& c % 13 != 0
    &&& c % 17 != 0
}

/// A number is the least from `n` on that no small prime divides.
pub open spec fn least_without_factor(n: int, c: int) -> bool {
    &&& n <= c
    &&& no_small_factor(c)
    &&& forall|k: int| n <= k < c ==> !#[trigger] no_small_factor(k)
}

/// The number of buckets for a number of entries: an odd one, which for many entries has no small
/// factor.
pub open spec fn default_bucket(n: int, c: int) -> bool {
    if n < 3 {
        c == 3
    } else if n < 19 {
        c == (if n % 2 == 0 {
            n + 1
        } else {
            n
        })
    } else {
        least_without_factor(n, c)
    }
}

/// The number of buckets for a number of entries. There is none where it cannot be counted.
pub fn get_default_bucket(n: usize) -> (r: Option<usize>)
    ensures
        match r {
            Some(c) => default_bucket(n as int, c as int),
            None => forall|c: int| #[trigger] default_bucket(n as int, c) ==> c > usize::MAX,
        },
{
    if n < 3 {
        return Some(3);
    }
    if n < 19 {
        return Some(
            if n % 2 == 0 {
                n + 1
            } else {
                n
            },
        );
    }
    let mut count: usize = n;
    while count % 2 == 0 || count % 3 == 0 || count % 5 == 0 || count % 7 == 0 || count % 11 == 0
        || count % 13 == 0 || count % 17 == 0
        invariant
            19 <= n <= count,
            forall|k: int| n <= k < count ==> !#[trigger] no_small_factor(k),
        decreases usize::MAX - count,
    {
        assert(!no_small_factor(count as int));
        if count == usize::MAX {
            return None;
        }
        count = count + 1;
    }
    assert(no_small_factor(count as int));
    Some(count)
}

/// Where a byte is in a text, from a position on. It is not found at the end of the text.
pub open spec fn find_byte(t: Seq<u8>, c: u8, from: int) -> int
    decreases t.len() - from,
{
    if from < 0 || from >= t.len() {
        t.len() as int
    } else if t[from] == c {
        from
    } else {
        find_byte(t, c, from + 1)
    }
}

proof fn lemma_find_byte(t: Seq<u8>, c: u8, from: int)
    requires
        0 <= from <= t.len(),
    ensures
        from <= find_byte(t, c, from) <= t.len(),
    decreases t.len() - from,
{
    if from < t.len() && t[from] != c {
        lemma_find_byte(t, c, from + 1);
    }
}

fn get_byte(t: &[u8], c: u8, from: usize) -> (r: usize)
    requires
        from <= t@.len(),
    ensures
        r == find_byte(t@, c, from as int),
        from <= r <= t@.len(),
{
    let n: usize = t.len();
    let mut i: usize = from;
    while i < n && t[i] != c
        invariant
            from <= i <= n == t@.len(),
            find_byte(t@, c, from as int) == find_byte(t@, c, i as int),
        decreases n - i,
    {
        i = i + 1;
    }
    i
}

/// The value of a key in a list of parameters, from a position on: of the last parameter with that
/// key. Parameters are parted by commas, and a key from its value by a colon. A parameter without a
/// colon is left out.
pub open spec fn param_value(t: Seq<u8>, key: Seq<u8>, from: int) -> Option<Seq<u8>>
    decreases t.len() - from,
{
    if from < 0 || from > t.len() {
        None
    } else {
        let end = find_byte(t, 0x2C, from);
        let p = t.subrange(from, end);
        let mid = find_byte(p, 0x3A, 0);
        let here = if mid < p.len() && p.take(mid) == key {
            Some(p.skip(mid + 1))
        } else {
            None
        };
        if end < from || end >= t.len() {
            here
        } else {
            match param_value(t, key, end + 1) {
                Some(v) => Some(v),
                None => here,
            }
        }
    }
}

/// Looks a parameter up.
pub fn get_param(t: &[u8], key: &[u8]) -> (r: Option<Vec<u8>>)
    ensures
        match r {
            Some(v) => param_value(t@, key@, 0) == Some(v@),
            None => param_value(t@, key@, 0) is None,
        },
{
    let n: usize = t.len();
    let mut found: Option<Vec<u8>> = None;
    let mut from: usize = 0;
    let mut go: bool = true;
    while go
        invariant
            n == t@.len(),
            from <= n,
            go ==> param_value(t@, key@, 0) == (match param_value(t@, key@, from as int) {
                Some(v) => Some(v),
                None => match found {
                    Some(v) => Some(v@),
                    None => None,
                },
            }),
            !go ==> param_value(t@, key@, 0) == (match found {
                Some(v) => Some(v@),
                None => None,
            }),
        decreases n - from + (if go {
            1int
        } else {
            0int
        }),
    {
        proof {
            lemma_find_byte(t@, 0x2C, from as int);
        }
        let end: usize = get_byte(t, 0x2C, from);
        let p = copy_range(t, from, end - from);
        assert(p@ =~= t@.subrange(from as int, end as int));
        let mid: usize = get_byte(&p, 0x3A, 0);
        if mid < p.len() {
            let k = copy_range(&p, 0, mid);
            assert(k@ =~= p@.take(mid as int));
            if same_bytes(&k, key) {
                let len: usize = p.len();
                let v = copy_range(&p, mid + 1, len - mid - 1);
                assert(v@ =~= p@.skip(mid + 1));
                found = Some(v);
            }
        }
        if end == n {
            go = false;
        } else {
            from = end + 1;
        }
    }
    found
}

/// The number that digits to the base of ten write.
pub open spec fn decimal_digits(s: Seq<u8>) -> Option<int>
    decreases s.len(),
{
    if s.len() == 0 {
        Some(0)
    } else {
        match decimal_digits(s.drop_last()) {
            Some(v) => if 0x30 <= s.last() <= 0x39 {
                Some(v * 10 + (s.last() - 0x30))
            } else {
                None
            },
            None => None,
        }
    }
}

/// The digits of a number, which may have a plus sign before them.
pub open spec fn unsigned_digits(s: Seq<u8>) -> Seq<u8> {
    if s.len() > 1 && s[0] == 0x2B {
        s.skip(1)
    } else {
        s
    }
}

/// The number that a text writes to the base of ten, if it can be counted.
pub open spec fn decimal(s: Seq<u8>) -> Option<int> {
    if s.len() == 0 {
        None
    } else {
        match decimal_digits(unsigned_digits(s)) {
            Some(v) => if v <= usize::MAX {
                Some(v)
            } else {
                None
            },
            None => None,
        }
    }
}

proof fn lemma_longer(s: Seq<u8>, n: int, limit: int)
    requires
        0 <= n <= s.len(),
        limit >= 0,
        decimal_digits(s.take(n)) is None || decimal_digits(s.take(n))->0 > limit,
    ensures
        decimal_digits(s) is None || decimal_digits(s)->0 > limit,
    decreases s.len() - n,
{
    if n == s.len() {
        assert(s.take(n) =~= s);
    } else {
        assert(s.take(n + 1).drop_last() =~= s.take(n));
        lemma_longer(s, n + 1, limit);
    }
}

/// Reads a number to the base of ten.
pub fn parse_decimal(s: &[u8]) -> (r: Option<usize>)
    ensures
        match r {
            Some(v) => decimal(s@) == Some(v as int),
            None => decimal(s@) is None,
        },
{
    let n: usize = s.len();
    if n == 0 {
        return None;
    }
    let start: usize = if n > 1 && s[0] == 0x2B {
        1
    } else {
        0
    };
    let ghost d = unsigned_digits(s@);
    assert(d =~= s@.skip(start as int));
    let mut v: usize = 0;
    let mut i: usize = start;
    assert(d.take(0) =~= Seq::<u8>::empty());
    while i < n
        invariant
            start <= i <= n == s@.len(),
            start <= 1,
            n > 0,
            d == unsigned_digits(s@),
            d == s@.skip(start as int),
            decimal_digits(d.take(i - start)) == Some(v as int),
        decreases n - i,
    {
        let ghost k = i - start;
        proof {
            assert(d.take(k + 1).drop_last() =~= d.take(k));
            assert(d.take(k + 1).last() == s@[i as int]);
        }
        let c: u8 = s[i];
        if c < 0x30 || c > 0x39 {
            proof {
                lemma_longer(d, k + 1, usize::MAX as int);
            }
            return None;
        }
        let y: u128 = v as u128 * 10 + (c - 0x30) as u128;
        if y > usize::MAX as u128 {
            proof {
                lemma_longer(d, k + 1, usize::MAX as int);
            }
            return None;
        }
        v = y as usize;
        i = i + 1;
    }
    assert(d.take(n - start) =~= d);
    Some(v)
}

/// A parameter that is a number, or else a default.
pub open spec fn number_param(t: Seq<u8>, key: Seq<u8>, default: int) -> Option<int> {
    match param_value(t, key, 0) {
        Some(v) => decimal(v),
        None => Some(default),
    }
}

fn get_number(t: &[u8], key: &[u8], default: usize) -> (r: Result<usize, Error>)
    ensures
        match r {
            Ok(v) => number_param(t@, key@, default as int) == Some(v as int),
            Err(e) => e == Error::InvalidValue && number_param(t@, key@, default as int) is None,
        },
{
    match get_param(t, key) {
        None => Ok(default),
        Some(v) => match parse_decimal(&v) {
            Some(x) => Ok(x),
            None => make_error(Error::InvalidValue),
        },
    }
}

/// A number of buckets that is given, or that for a number of entries.
pub open spec fn bucket_param(t: Seq<u8>, key: Seq<u8>, n: int, c: int) -> bool {
    match param_value(t, key, 0) {
        Some(v) => decimal(v) == Some(c),
        None => default_bucket(n, c) && c <= usize::MAX,
    }
}

fn get_buckets(t: &[u8], key: &[u8], n: usize) -> (r: Result<usize, Error>)
    ensures
        match r {
            Ok(v) => bucket_param(t@, key@, n as int, v as int),
            Err(e) => e == Error::InvalidValue && forall|c: int| !bucket_param(t@, key@, n as int, c),
        },
{
    match get_param(t, key) {
        None => match get_default_bucket(n) {
            Some(c) => Ok(c),
            None => make_error(Error::InvalidValue),
        },
        Some(v) => match parse_decimal(&v) {
            Some(x) => Ok(x),
            None => make_error(Error::InvalidValue),
        },
    }
}

/// `max_dir`
pub open spec fn max_dir_key() -> Seq<u8> {
    seq![0x6Du8, 0x61, 0x78, 0x5F, 0x64, 0x69, 0x72]
}

/// `max_file`
pub open spec fn max_file_key() -> Seq<u8> {
    seq![0x6Du8, 0x61, 0x78, 0x5F, 0x66, 0x69, 0x6C, 0x65]
}

/// `dir_buckets`
pub open spec fn dir_buckets_key() -> Seq<u8> {
    seq![0x64u8, 0x69, 0x72, 0x5F, 0x62, 0x75, 0x63, 0x6B, 0x65, 0x74, 0x73]
}

/// `file_buckets`
pub open spec fn file_buckets_key() -> Seq<u8> {
    seq![0x66u8, 0x69, 0x6C, 0x65, 0x5F, 0x62, 0x75, 0x63, 0x6B, 0x65, 0x74, 0x73]
}

/// `block_len`
pub open spec fn block_len_key() -> Seq<u8> {
    seq![0x62u8, 0x6C, 0x6F, 0x63, 0x6B, 0x5F, 0x6C, 0x65, 0x6E]
}

/// `duplicate_data`
pub open spec fn duplicate_data_key() -> Seq<u8> {
    seq![
        0x64u8, 0x75, 0x70, 0x6C, 0x69, 0x63, 0x61, 0x74, 0x65, 0x5F, 0x64, 0x61, 0x74, 0x61,
    ]
}

/// `len`
pub open spec fn len_key() -> Seq<u8> {
    seq![0x6Cu8, 0x65, 0x6E]
}

/// `true`
pub open spec fn true_word() -> Seq<u8> {
    seq![0x74u8, 0x72, 0x75, 0x65]
}

/// `false`
pub open spec fn false_word() -> Seq<u8> {
    seq![0x66u8, 0x61, 0x6C, 0x73, 0x65]
}

/// The numbers of directories, files and buckets that parameters give.
pub open spec fn counts_given(
    t: Seq<u8>,
    max_dir: int,
    dir_buckets: int,
    max_file: int,
    file_buckets: int,
) -> bool {
    &&& number_param(t, max_dir_key(), 100) == Some(max_dir)
    &&& number_param(t, max_file_key(), 100) == Some(max_file)
    &&& bucket_param(t, dir_buckets_key(), max_dir, dir_buckets)
    &&& bucket_param(t, file_buckets_key(), max_file, file_buckets)
}

/// The parameters for new extra data. A number that cannot be read is an invalid value.
pub fn to_ext_data_format_param(t: &[u8]) -> (r: Result<ExtDataFormatParam, Error>)
    ensures
        match r {
            Ok(p) => counts_given(
                t@,
                p.max_dir as int,
                p.dir_buckets as int,
                p.max_file as int,
                p.file_buckets as int,
            ),
            Err(e) => e == Error::InvalidValue && forall|a: int, b: int, c: int, d: int|
                !counts_given(t@, a, b, c, d),
        },
{
    let max_dir_name: Vec<u8> = vec![0x6Du8, 0x61, 0x78, 0x5F, 0x64, 0x69, 0x72];
    let max_file_name: Vec<u8> = vec![0x6Du8, 0x61, 0x78, 0x5F, 0x66, 0x69, 0x6C, 0x65];
    let dir_buckets_name: Vec<u8> = vec![
        0x64u8, 0x69, 0x72, 0x5F, 0x62, 0x75, 0x63, 0x6B, 0x65, 0x74, 0x73,
    ];
    let file_buckets_name: Vec<u8> = vec![
        0x66u8, 0x69, 0x6C, 0x65, 0x5F, 0x62, 0x75, 0x63, 0x6B, 0x65, 0x74, 0x73,
    ];
    proof {
        assert(max_dir_name@ =~= max_dir_key());
        assert(max_file_name@ =~= max_file_key());
        assert(dir_buckets_name@ =~= dir_buckets_key());
        assert(file_buckets_name@ =~= file_buckets_key());
    }
    let max_dir: usize = match get_number(t, &max_dir_name, 100) {
        Ok(v) => v,
        Err(e) => {
            return make_error(e);
        },
    };
    let dir_buckets: usize = match get_buckets(t, &dir_buckets_name, max_dir) {
        Ok(v) => v,
        Err(e) => {
            return make_error(e);
        },
    };
    let max_file: usize = match get_number(t, &max_file_name, 100) {
        Ok(v) => v,
        Err(e) => {
            return make_error(e);
        },
    };
    let file_buckets: usize = match get_buckets(t, &file_buckets_name, max_file) {
        Ok(v) => v,
        Err(e) => {
            return make_error(e);
        },
    };
    Ok(ExtDataFormatParam { max_dir, dir_buckets, max_file, file_buckets })
}

/// Whether data is kept twice. A word other than `true` and `false` is none.
pub open spec fn duplicate_param(t: Seq<u8>) -> Option<bool> {
    match param_value(t, duplicate_data_key(), 0) {
        None => Some(true),
        Some(v) => if v == true_word() {
            Some(true)
        } else if v == false_word() {
            Some(false)
        } else {
            None
        },
    }
}

fn get_duplicate(t: &[u8]) -> (r: Result<bool, Error>)
    ensures
        match r {
            Ok(v) => duplicate_param(t@) == Some(v),
            Err(e) => e == Error::InvalidValue && duplicate_param(t@) is None,
        },
{
    let key: Vec<u8> = vec![
        0x64u8, 0x75, 0x70, 0x6C, 0x69, 0x63, 0x61, 0x74, 0x65, 0x5F, 0x64, 0x61, 0x74, 0x61,
    ];
    let yes: Vec<u8> = vec![0x74u8, 0x72, 0x75, 0x65];
    let no: Vec<u8> = vec![0x66u8, 0x61, 0x6C, 0x73, 0x65];
    proof {
        assert(key@ =~= duplicate_data_key());
        assert(yes@ =~= true_word());
        assert(no@ =~= false_word());
    }
    match get_param(t, &key) {
        None => Ok(true),
        Some(v) => if same_bytes(&v, &yes) {
            Ok(true)
        } else if same_bytes(&v, &no) {
            Ok(false)
        } else {
            make_error(Error::InvalidValue)
        },
    }
}

/// The parameters and the length for new save data.
pub open spec fn save_given(
    t: Seq<u8>,
    default_block_len: int,
    p: SaveDataFormatParam,
    len: int,
) -> bool {
    &&& number_param(t, block_len_key(), default_block_len) == Some(p.block_type.len())
    &&& counts_given(
        t,
        p.max_dir as int,
        p.dir_buckets as int,
        p.max_file as int,
        p.file_buckets as int,
    )
    &&& duplicate_param(t) == Some(p.duplicate_data)
    &&& number_param(t, len_key(), 0x8_0000) == Some(len)
}

/// The parameters and the length for new save data. A value that cannot be read, or a block length
/// other than 512 and 4096, is an invalid value.
pub fn to_save_data_format_param(t: &[u8], default_block_len: usize) -> (r: Result<
    (SaveDataFormatParam, usize),
    Error,
>)
    ensures
        match r {
            Ok(v) => save_given(t@, default_block_len as int, v.0, v.1 as int),
            Err(e) => e == Error::InvalidValue && forall|p: SaveDataFormatParam, len: int|
                !save_given(t@, default_block_len as int, p, len),
        },
{
    let block_len_name: Vec<u8> = vec![0x62u8, 0x6C, 0x6F, 0x63, 0x6B, 0x5F, 0x6C, 0x65, 0x6E];
    let len_name: Vec<u8> = vec![0x6Cu8, 0x65, 0x6E];
    proof {
        assert(block_len_name@ =~= block_len_key());
        assert(len_name@ =~= len_key());
    }
    let block_len: usize = match get_number(t, &block_len_name, default_block_len) {
        Ok(v) => v,
        Err(e) => {
            return make_error(e);
        },
    };
    let block_type = if block_len == 512 {
        SaveDataBlockType::Small
    } else if block_len == 4096 {
        SaveDataBlockType::Large
    } else {
        return make_error(Error::InvalidValue);
    };
    let counts = match to_ext_data_format_param(t) {
        Ok(c) => c,
        Err(e) => {
            return make_error(e);
        },
    };
    let duplicate_data: bool = match get_duplicate(t) {
        Ok(v) => v,
        Err(e) => {
            return make_error(e);
        },
    };
    let len: usize = match get_number(t, &len_name, 0x8_0000) {
        Ok(v) => v,
        Err(e) => {
            return make_error(e);
        },
    };
    Ok(
        (
            SaveDataFormatParam {
                block_type,
                max_dir: counts.max_dir,
                dir_buckets: counts.dir_buckets,
                max_file: counts.max_file,
                file_buckets: counts.file_buckets,
                duplicate_data,
            },
            len,
        ),
    )
}

/// A key that a text writes as 32 digits.
pub open spec fn key_written(t: Seq<u8>, k: Seq<u8>) -> bool {
    &&& t.len() == 32
    &&& k.len() == 16
    &&& forall|i: int|
        0 <= i < 16 ==> hex_value(t.subrange(2 * i, 2 * i + 2), 2) == Some((#[trigger] k[i]) as int)
}

/// Reads a key that is written as 32 digits. Another text is the name of a file that holds the key.
pub fn read_key(t: &[u8]) -> (r: Option<[u8; 16]>)
    ensures
        match r {
            Some(k) => key_written(t@, k@),
            None => forall|k: Seq<u8>| !#[trigger] key_written(t@, k),
        },
{
    if t.len() != 32 {
        return None;
    }
    let mut key: [u8; 16] = [0u8; 16];
    let mut i: usize = 0;
    while i < 16
        invariant
            i <= 16,
            t@.len() == 32,
            key@.len() == 16,
            forall|j: int|
                0 <= j < i ==> hex_value(t@.subrange(2 * j, 2 * j + 2), 2) == Some(
                    (#[trigger] key@[j]) as int,
                ),
        decreases 16 - i,
    {
        let pair = copy_range(t, 2 * i, 2);
        assert(pair@ =~= t@.subrange(2 * i as int, 2 * i as int + 2));
        match parse_hex(&pair, 2) {
            Some(v) => {
                assert(pow(16, 2) == 256) by {
                    reveal_with_fuel(pow, 3);
                }
                key[i] = v as u8;
            },
            None => {
                proof {
                    assert forall|k: Seq<u8>| !#[trigger] key_written(t@, k) by {
                        if key_written(t@, k) {
                            assert(hex_value(
                                t@.subrange(2 * (i as int), 2 * (i as int) + 2),
                                2,
                            ) == Some(k[i as int] as int));
                        }
                    }
                }
                return None;
            },
        }
        i = i + 1;
    }
    Some(key)
}

/// What is done with an archive.
#[derive(Clone, Copy, PartialEq, Eq, Structural, Debug)]
pub enum FileSystemOperation {
    Mount(bool),
    Extract,
    Import,
    Touch,
}

/// Chooses what is done with an archive, and whether it is only read. At most one of the three can
/// be asked for.
pub fn choose_operation(touch: bool, import: bool, extract: bool, read_only: bool) -> (r: Option<
    (FileSystemOperation, bool),
>)
    ensures
        r is None <==> (touch && import) || (touch && extract) || (import && extract),
        r matches Some(v) ==> {
            &&& v.1 == (read_only || extract || touch)
            &&& extract ==> v.0 == FileSystemOperation::Extract
            &&& import ==> v.0 == FileSystemOperation::Import
            &&& touch ==> v.0 == FileSystemOperation::Touch
            &&& !extract && !import && !touch ==> v.0 == FileSystemOperation::Mount(v.1)
        },
{
    if (touch && import) || (touch && extract) || (import && extract) {
        return None;
    }
    let read_only: bool = read_only || extract || touch;
    let operation = if extract {
        FileSystemOperation::Extract
    } else if import {
        FileSystemOperation::Import
    } else if touch {
        FileSystemOperation::Touch
    } else {
        FileSystemOperation::Mount(read_only)
    };
    Some((operation, read_only))
}

/// The options that name an archive.
#[derive(Clone, Copy, PartialEq, Eq, Structural, Debug)]
pub enum ArchiveOption {
    SdSave,
    SdExt,
    NandSave,
    NandExt,
    Bare,
    Db,
    Cart,
}

/// The options in the order in which they are asked for.
pub open spec fn archive_options() -> Seq<ArchiveOption> {
    seq![
        ArchiveOption::SdSave,
        ArchiveOption::SdExt,
        ArchiveOption::NandSave,
        ArchiveOption::NandExt,
        ArchiveOption::Bare,
        ArchiveOption::Db,
        ArchiveOption::Cart,
    ]
}

/// One option is given, and no other.
pub open spec fn only_given(given: Seq<bool>, i: int) -> bool {
    &&& 0 <= i < given.len()
    &&& given[i]
    &&& forall|j: int| 0 <= j < given.len() && j != i ==> !#[trigger] given[j]
}

/// Chooses the archive. One and only one of the options must be given.
pub fn choose_archive(given: &[bool; 7]) -> (r: Option<ArchiveOption>)
    ensures
        match r {
            Some(a) => exists|i: int| #[trigger]
                only_given(given@, i) && a == archive_options()[i],
            None => forall|i: int| !#[trigger] only_given(given@, i),
        },
{
    let all: [ArchiveOption; 7] = [
        ArchiveOption::SdSave,
        ArchiveOption::SdExt,
        ArchiveOption::NandSave,
        ArchiveOption::NandExt,
        ArchiveOption::Bare,
        ArchiveOption::Db,
        ArchiveOption::Cart,
    ];
    assert(all@ =~= archive_options());
    let mut found: Option<usize> = None;
    let mut i: usize = 0;
    while i < 7
        invariant
            i <= 7,
            given@.len() == 7,
            match found {
                Some(k) => k < i && given@[k as int] && forall|j: int|
                    0 <= j < i && j != k ==> !#[trigger] given@[j],
                None => forall|j: int| 0 <= j < i ==> !#[trigger] given@[j],
            },
        decreases 7 - i,
    {
        if given[i] {
            if let Some(k) = found {
                proof {
                    assert forall|x: int| !#[trigger] only_given(given@, x) by {
                        assert(given@[k as int] && given@[i as int]);
                    }
                }
                return None;
            }
            found = Some(i);
        }
        i = i + 1;
    }
    match found {
        Some(k) => {
            assert(only_given(given@, k as int));
            Some(all[k])
        },
        None => None,
    }
}

impl ArchiveOption {
    /// The length of a block where none is given for new save data.
    pub fn default_block_len(self) -> (n: usize)
        ensures
            n == if self == ArchiveOption::NandSave {
                4096int
            } else {
                512
            },
    {
        match self {
            ArchiveOption::NandSave => 4096,
            _ => 512,
        }
    }

    /// How many digits the number of an archive can have.
    pub fn id_digits(self) -> (n: usize)
        ensures
            n == if self == ArchiveOption::NandSave {
                8int
            } else {
                16
            },
    {
        match self {
            ArchiveOption::NandSave => 8,
            _ => 16,
        }
    }
}

/// The word for a database, such as `nandtitle`.
pub open spec fn db_word(t: DbType) -> Seq<u8> {
    match t {
        DbType::NandTitle => seq![0x6Eu8, 0x61, 0x6E, 0x64, 0x74, 0x69, 0x74, 0x6C, 0x65],
        DbType::NandImport => seq![0x6Eu8, 0x61, 0x6E, 0x64, 0x69, 0x6D, 0x70, 0x6F, 0x72, 0x74],
        DbType::TmpTitle => seq![0x74u8, 0x6D, 0x70, 0x74, 0x69, 0x74, 0x6C, 0x65],
        DbType::TmpImport => seq![0x74u8, 0x6D, 0x70, 0x69, 0x6D, 0x70, 0x6F, 0x72, 0x74],
        DbType::SdTitle => seq![0x73u8, 0x64, 0x74, 0x69, 0x74, 0x6C, 0x65],
        DbType::SdImport => seq![0x73u8, 0x64, 0x69, 0x6D, 0x70, 0x6F, 0x72, 0x74],
        DbType::Ticket => seq![0x74u8, 0x69, 0x63, 0x6B, 0x65, 0x74],
    }
}

fn get_word(t: DbType) -> (r: Vec<u8>)
    ensures
        r@ == db_word(t),
{
    let r: Vec<u8> = match t {
        DbType::NandTitle => vec![0x6Eu8, 0x61, 0x6E, 0x64, 0x74, 0x69, 0x74, 0x6C, 0x65],
        DbType::NandImport => vec![0x6Eu8, 0x61, 0x6E, 0x64, 0x69, 0x6D, 0x70, 0x6F, 0x72, 0x74],
        DbType::TmpTitle => vec![0x74u8, 0x6D, 0x70, 0x74, 0x69, 0x74, 0x6C, 0x65],
        DbType::TmpImport => vec![0x74u8, 0x6D, 0x70, 0x69, 0x6D, 0x70, 0x6F, 0x72, 0x74],
        DbType::SdTitle => vec![0x73u8, 0x64, 0x74, 0x69, 0x74, 0x6C, 0x65],
        DbType::SdImport => vec![0x73u8, 0x64, 0x69, 0x6D, 0x70, 0x6F, 0x72, 0x74],
        DbType::Ticket => vec![0x74u8, 0x69, 0x63, 0x6B, 0x65, 0x74],
    };
    assert(r@ =~= db_word(t));
    r
}

/// The database that a word is for.
pub fn to_db_type(word: &[u8]) -> (r: Option<DbType>)
    ensures
        match r {
            Some(t) => word@ == db_word(t),
            None => forall|t: DbType| word@ != #[trigger] db_word(t),
        },
{
    let all: [DbType; 7] = [
        DbType::NandTitle,
        DbType::NandImport,
        DbType::TmpTitle,
        DbType::TmpImport,
        DbType::SdTitle,
        DbType::SdImport,
        DbType::Ticket,
    ];
    let mut i: usize = 0;
    while i < 7
        invariant
            i <= 7,
            all@ == seq![
                DbType::NandTitle,
                DbType::NandImport,
                DbType::TmpTitle,
                DbType::TmpImport,
                DbType::SdTitle,
                DbType::SdImport,
                DbType::Ticket,
            ],
            forall|k: int| 0 <= k < i ==> word@ != db_word(#[trigger] all@[k]),
        decreases 7 - i,
    {
        if same_bytes(word, &get_word(all[i])) {
            return Some(all[i]);
        }
        i = i + 1;
    }
    proof {
        assert forall|t: DbType| word@ != #[trigger] db_word(t) by {
            assert(exists|k: int| 0 <= k < 7 && #[trigger] all@[k] == t) by {
                match t {
                    DbType::NandTitle => assert(all@[0] == t),
                    DbType::NandImport => assert(all@[1] == t),
                    DbType::TmpTitle => assert(all@[2] == t),
                    DbType::TmpImport => assert(all@[3] == t),
                    DbType::SdTitle => assert(all@[4] == t),
                    DbType::SdImport => assert(all@[5] == t),
                    DbType::Ticket => assert(all@[6] == t),
                }
            }
        }
    }
    None
}

} // verus!
