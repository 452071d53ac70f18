use crate::archive::ImageRule;
use crate::db::DbType;
use crate::error::Error;
use crate::random_access_file::Content;
use crate::save_data::SaveDataFormatParam;
use crate::volume_store::Source;
use vstd::prelude::*;

verus! {

use crate::archive::{head_fields, image_head, source_of};
use crate::db::db_source;
use crate::ext_data::ext_rule;
use crate::fields::{lemma_field, lemma_packed_len, lemma_pow256, packed, start};
use crate::random_access_file::can_read;
use crate::save_data::save_rule;
use crate::words::{
    eight, four, law_read_lowest_first, lemma_word4_bytes, lemma_word8_bytes, word4, word8,
};

/// What the description of a file system tells, at a position in some bytes: a word that is not
/// looked at, the length of blocks, then an offset and a count for the buckets of directories and
/// of files, the table of blocks and the blocks, and a place and a count for the directories and
/// the files. Behind each count there is a word that is not looked at.
pub open spec fn described(d: Seq<u8>, at: int, s: Source) -> bool {
    let i = s.info;
    &&& i.block_len == word4(d, at + 4)
    &&& i.dir_hash_offset == word8(d, at + 0x08)
    &&& i.dir_buckets == word4(d, at + 0x10)
    &&& i.file_hash_offset == word8(d, at + 0x18)
    &&& i.file_buckets == word4(d, at + 0x20)
    &&& i.fat_offset == word8(d, at + 0x28)
    &&& i.fat_size == word4(d, at + 0x30)
    &&& i.data_offset == word8(d, at + 0x38)
    &&& i.data_block_count == word4(d, at + 0x40)
    &&& i.dir_table.block_index == word4(d, at + 0x48)
    &&& i.dir_table.block_count == word4(d, at + 0x4C)
    &&& i.dir_table.offset() == word8(d, at + 0x48)
    &&& i.max_dir == word4(d, at + 0x50)
    &&& i.file_table.block_index == word4(d, at + 0x58)
    &&& i.file_table.block_count == word4(d, at + 0x5C)
    &&& i.file_table.offset() == word8(d, at + 0x58)
    &&& i.max_file == word4(d, at + 0x60)
}

/// Bytes that begin with a name and a version.
pub open spec fn named_so(d: Seq<u8>, b: int, name: Seq<u8>, version: int) -> bool {
    four(d, b) == name && word4(d, b + 4) == version
}

/// A header at a position: a name, a version, and how far behind the name the description is. A
/// header that can be read is refused just where the name or the version is another one.
pub open spec fn header_tells<F: Content>(
    p: F,
    b: int,
    len: int,
    name: Seq<u8>,
    version: int,
    r: Result<Source, Error>,
) -> bool {
    let d = p.bytes();
    can_read(p, b, len) ==> if named_so(d, b, name, version) {
        let at = b + word8(d, b + 8);
        &&& can_read(p, at, 0x68) ==> r is Ok
        &&& r matches Ok(s) ==> described(d, at, s)
        &&& r != Err::<Source, Error>(Error::MagicMismatch)
    } else {
        r == Err::<Source, Error>(Error::MagicMismatch)
    }
}

proof fn lemma_described<F: Content>(p: F, rule: ImageRule)
    requires
        rule.header_len >= 16,
    ensures
        source_of(p, rule) matches Ok(s) ==> described(
            p.bytes(),
            rule.base + word8(p.bytes(), rule.base + 8),
            s,
        ),
{
    let d = p.bytes();
    let b = rule.base as int;
    if source_of(p, rule) is Ok {
        law_read_lowest_first(d, b + 8);
        let at = b + word8(d, b + 8);
        let e = d.subrange(at, at + 0x68);
        lemma_word_here(d, e, at, 0x04);
        lemma_word_here(d, e, at, 0x08);
        lemma_word_here(d, e, at, 0x10);
        lemma_word_here(d, e, at, 0x18);
        lemma_word_here(d, e, at, 0x20);
        lemma_word_here(d, e, at, 0x28);
        lemma_word_here(d, e, at, 0x30);
        lemma_word_here(d, e, at, 0x38);
        lemma_word_here(d, e, at, 0x40);
        lemma_word_here(d, e, at, 0x48);
        lemma_word_here(d, e, at, 0x4C);
        lemma_word_here(d, e, at, 0x50);
        lemma_word_here(d, e, at, 0x58);
        lemma_word_here(d, e, at, 0x5C);
        lemma_word_here(d, e, at, 0x60);
    }
}

proof fn lemma_word_here(d: Seq<u8>, e: Seq<u8>, at: int, k: int)
    requires
        0 <= at,
        at + 0x68 <= d.len(),
        e == d.subrange(at, at + 0x68),
        0 <= k <= 0x60,
    ensures
        crate::fields::field(e, k, 4) == word4(d, at + k),
        crate::fields::field(e, k, 8) == word8(d, at + k),
        0 <= word4(d, at + k) < 0x1_0000_0000,
        0 <= word8(d, at + k) < 0x1_0000_0000_0000_0000,
{
    law_read_lowest_first(e, k);
    lemma_word4_bytes(d, four(d, at + k), at + k);
    lemma_word8_bytes(d, eight(d, at + k), at + k);
}

proof fn lemma_header<F: Content>(p: F, rule: ImageRule, name: Seq<u8>)
    requires
        rule.header_len >= 16,
        name.len() == 4,
        word4(name, 0) == rule.magic,
    ensures
        header_tells(
            p,
            rule.base as int,
            rule.header_len as int,
            name,
            rule.version as int,
            source_of(p, rule),
        ),
{
    let b = rule.base as int;
    lemma_described(p, rule);
    if can_read(p, b, rule.header_len as int) {
        law_read_lowest_first(p.bytes(), b);
        law_read_lowest_first(p.bytes(), b + 4);
        law_read_lowest_first(p.bytes(), b + 8);
        lemma_word4_bytes(p.bytes(), name, b);
    }
}

/// Save data begins with `SAVE` and version 0x40000. Keys have 20 bytes, what is kept of a
/// directory has 16, and what is kept of a file has 24. Offsets are counted from the name.
pub proof fn law_header_of_save_data<F: Content>(p: F)
    ensures
        header_tells(
            p,
            0,
            0x20,
            seq![0x53u8, 0x41, 0x56, 0x45],
            0x40000,
            source_of(p, save_rule()),
        ),
        source_of(p, save_rule()) matches Ok(s) ==> {
            &&& s.base == 0
            &&& s.layout.dir_key_len == 20
            &&& s.layout.dir_info_len == 16
            &&& s.layout.file_key_len == 20
            &&& s.layout.file_info_len == 24
            &&& !s.cut_off
        },
{
    lemma_header(p, save_rule(), seq![0x53u8, 0x41, 0x56, 0x45]);
}

/// The list of files of extra data begins with `VSXE` and version 0x30000, and is otherwise as save
/// data is.
pub proof fn law_header_of_extra_data<F: Content>(p: F)
    ensures
        header_tells(
            p,
            0,
            0x138,
            seq![0x56u8, 0x53, 0x58, 0x45],
            0x30000,
            source_of(p, ext_rule()),
        ),
        source_of(p, ext_rule()) matches Ok(s) ==> {
            &&& s.base == 0
            &&& s.layout.dir_key_len == 20
            &&& s.layout.dir_info_len == 16
            &&& s.layout.file_key_len == 20
            &&& s.layout.file_info_len == 24
            &&& !s.cut_off
        },
{
    lemma_header(p, ext_rule(), seq![0x56u8, 0x53, 0x58, 0x45]);
}

/// The bytes that a database begins with.
pub open spec fn opening(t: DbType) -> Seq<u8> {
    match t {
        DbType::Ticket => seq![0x54u8, 0x49, 0x43, 0x4B],
        DbType::NandTitle => seq![0x4Eu8, 0x41, 0x4E, 0x44, 0x54, 0x44, 0x42, 0],
        DbType::NandImport => seq![0x4Eu8, 0x41, 0x4E, 0x44, 0x49, 0x44, 0x42, 0],
        DbType::TmpTitle | DbType::TmpImport => seq![
            0x54u8,
            0x45,
            0x4D,
            0x50,
            0x49,
            0x44,
            0x42,
            0,
        ],
        DbType::SdTitle | DbType::SdImport => seq![
            0x54u8,
            0x45,
            0x4D,
            0x50,
            0x54,
            0x44,
            0x42,
            0,
        ],
    }
}

/// A database begins with the letters of its kind: `TICK`, or `NANDTDB`, `NANDIDB`, `TEMPIDB` or
/// `TEMPTDB` and a zero. What begins otherwise is refused. Behind those, from 0x10 on for tickets
/// and from 0x80 on else, there are `BDRI` and version 0x30000. Keys of directories have 4 bytes,
/// those of files 12, what is kept of a directory has 24, and what is kept of a file has 28.
/// Offsets are counted from the second name, and the blocks may end behind the partition.
pub proof fn law_header_of_database<F: Content>(p: F, t: DbType)
    ensures
        ({
            let n = opening(t).len() as int;
            let b: int = if t is Ticket {
                0x10
            } else {
                0x80
            };
            let r = db_source(p, t);
            can_read(p, 0, n) ==> if p.bytes().take(n) == opening(t) {
                header_tells(p, b, 0x20, seq![0x42u8, 0x44, 0x52, 0x49], 0x30000, r) && (
                r matches Ok(s) ==> {
                    &&& s.base == b
                    &&& s.layout.dir_key_len == 4
                    &&& s.layout.dir_info_len == 24
                    &&& s.layout.file_key_len == 12
                    &&& s.layout.file_info_len == 28
                    &&& s.cut_off
                })
            } else {
                r == Err::<Source, Error>(Error::MagicMismatch)
            }
        }),
        db_source(p, t) is Ok ==> can_read(p, 0, opening(t).len() as int),
{
    let o = opening(t);
    let n = o.len() as int;
    lemma_header(p, t.rule(), seq![0x42u8, 0x44, 0x52, 0x49]);
    assert(n == t.magic().1);
    if can_read(p, 0, n) {
        law_read_lowest_first(p.bytes(), 0);
        assert(p.bytes().take(n) =~= p.bytes().subrange(0, n));
        if t is Ticket {
            lemma_word4_bytes(p.bytes(), o, 0);
        } else {
            lemma_word8_bytes(p.bytes(), o, 0);
        }
    }
}

proof fn lemma_opened_with<F: Content>(p: F, t: DbType)
    requires
        db_source(p, t) is Ok,
    ensures
        ({
            let d = p.bytes();
            &&& t is Ticket == (d[0] == 0x54 && d[1] == 0x49)
            &&& t is NandTitle == (d[0] == 0x4E && d[4] == 0x54)
            &&& t is NandImport == (d[0] == 0x4E && d[4] == 0x49)
            &&& (t is TmpTitle || t is TmpImport) == (d[0] == 0x54 && d[1] == 0x45 && d[4] == 0x49)
            &&& (t is SdTitle || t is SdImport) == (d[0] == 0x54 && d[1] == 0x45 && d[4] == 0x54)
        }),
{
    law_header_of_database(p, t);
    let d = p.bytes();
    let o = opening(t);
    let e = d.take(o.len() as int);
    assert(e == o);
    assert(d[0] == e[0] && d[1] == e[1]);
    if !(t is Ticket) {
        assert(d[4] == e[4]);
    }
}

/// A partition opens as one kind of database at most, where the kinds begin differently: a title
/// database of the console's storage is no import database, no unfinished one, none of the card
/// and no ticket database, and so for each of them.
pub proof fn law_one_kind_of_database<F: Content>(p: F, t: DbType, u: DbType)
    requires
        db_source(p, t) is Ok,
        db_source(p, u) is Ok,
    ensures
        t is Ticket == u is Ticket,
        t is NandTitle == u is NandTitle,
        t is NandImport == u is NandImport,
        (t is TmpTitle || t is TmpImport) == (u is TmpTitle || u is TmpImport),
        (t is SdTitle || t is SdImport) == (u is SdTitle || u is SdImport),
{
    lemma_opened_with(p, t);
    lemma_opened_with(p, u);
}

/// A new header has, behind the name and the version, its own length, how many blocks the partition
/// has and how long they are, and zeros.
pub proof fn law_new_header(rule: ImageRule, image_size: u64, block_len: u32, i: int)
    requires
        rule.header_len >= 0x1C,
        rule.magic <= u32::MAX,
        rule.version <= u32::MAX,
    ensures
        ({
            let h = image_head(rule, image_size, block_len);
            &&& h.len() == rule.header_len
            &&& word4(h, 0) == rule.magic
            &&& word4(h, 4) == rule.version
            &&& word8(h, 8) == rule.header_len
            &&& word8(h, 0x10) == image_size
            &&& word4(h, 0x18) == block_len
            &&& 0x1C <= i < rule.header_len ==> h[i] == 0
        }),
{
    reveal(image_head);
    let f = head_fields(rule, image_size, block_len);
    let q = packed(f);
    let h = image_head(rule, image_size, block_len);
    lemma_pow256();
    lemma_packed_len(f);
    assert(start(f, 0) == 0);
    assert(start(f, 1) == 4);
    assert(start(f, 2) == 8);
    assert(start(f, 3) == 0x10);
    assert(start(f, 4) == 0x18);
    assert(start(f, 5) == 0x1C);
    lemma_field(f, 0);
    lemma_field(f, 1);
    lemma_field(f, 2);
    lemma_field(f, 3);
    lemma_field(f, 4);
    law_read_lowest_first(q, 0);
    law_read_lowest_first(q, 4);
    law_read_lowest_first(q, 8);
    law_read_lowest_first(q, 0x10);
    law_read_lowest_first(q, 0x18);
    assert(forall|k: int| 0 <= k < 0x1C ==> h[k] == q[k]);
}

/// New save data begins with a header that counts the blocks of its partition.
pub proof fn law_header_of_new_save_data(data: Seq<u8>, p: SaveDataFormatParam, i: int)
    requires
        crate::save_data::headed(data, p),
        0x20 <= data.len() <= u64::MAX,
    ensures
        ({
            let bl = if p.block_type is Small {
                512
            } else {
                4096int
            };
            &&& named_so(data, 0, seq![0x53u8, 0x41, 0x56, 0x45], 0x40000)
            &&& word8(data, 8) == 0x20
            &&& word8(data, 0x10) * bl <= data.len() < (word8(data, 0x10) + 1) * bl
            &&& word4(data, 0x18) == bl
            &&& 0x1C <= i < 0x20 ==> data[i] == 0
        }),
{
    let bl = p.block_type.len();
    let n = data.len() as int / bl;
    assert(0 <= n <= data.len()) by (nonlinear_arith)
        requires
            bl > 0,
            n == data.len() as int / bl,
    ;
    lemma_taken(data, save_rule(), n as u64, bl as u32, i);
    lemma_word4_bytes(data, seq![0x53u8, 0x41, 0x56, 0x45], 0);
    assert(n * bl <= data.len() < (n + 1) * bl) by (nonlinear_arith)
        requires
            bl > 0,
            n == data.len() as int / bl,
    ;
}

/// New extra data begins with a header that counts the blocks of its partition.
pub proof fn law_header_of_new_extra_data(data: Seq<u8>, i: int)
    requires
        crate::ext_data::headed(data),
        0x138 <= data.len() <= u64::MAX,
    ensures
        named_so(data, 0, seq![0x56u8, 0x53, 0x58, 0x45], 0x30000),
        word8(data, 8) == 0x138,
        word8(data, 0x10) * 4096 <= data.len() < (word8(data, 0x10) + 1) * 4096,
        word4(data, 0x18) == 4096,
        0x1C <= i < 0x138 ==> data[i] == 0,
{
    lemma_taken(data, ext_rule(), (data.len() as int / 4096) as u64, 4096, i);
    lemma_word4_bytes(data, seq![0x56u8, 0x53, 0x58, 0x45], 0);
}

proof fn lemma_taken(data: Seq<u8>, rule: ImageRule, image_size: u64, block_len: u32, i: int)
    requires
        0x1C <= rule.header_len <= data.len(),
        rule.magic <= u32::MAX,
        rule.version <= u32::MAX,
        data.subrange(0, rule.header_len as int) == image_head(rule, image_size, block_len),
    ensures
        word4(data, 0) == rule.magic,
        word4(data, 4) == rule.version,
        word8(data, 8) == rule.header_len,
        word8(data, 0x10) == image_size,
        word4(data, 0x18) == block_len,
        0x1C <= i < rule.header_len ==> data[i] == 0,
{
    let h = image_head(rule, image_size, block_len);
    law_new_header(rule, image_size, block_len, i);
    assert(forall|k: int| 0 <= k < rule.header_len ==> h[k] == data[k]);
}

} // verus!
