use crate::db::DbType;
use vstd::prelude::*;

verus! {

use crate::places::law_no_file_is_the_list;

/// The digit for a number below sixteen.
pub open spec fn hex_digit(d: int) -> u8 {
    if d < 10 {
        (0x30 + d) as u8
    } else {
        (0x61 + d - 10) as u8
    }
}

/// The last `n` digits of a number, to the base of sixteen.
pub open spec fn hex_text(v: int, n: nat) -> Seq<u8>
    decreases n,
{
    if n == 0 {
        Seq::empty()
    } else {
        hex_text(v / 16, (n - 1) as nat).push(hex_digit(v % 16))
    }
}

/// Writes a number with eight digits, to the base of sixteen.
pub fn hex8(v: u32) -> (r: Vec<u8>)
    ensures
        r@ == hex_text(v as int, 8),
{
    let ghost all = hex_text(v as int, 8);
    let mut rest: u32 = v;
    let mut out: Vec<u8> = Vec::new();
    let mut k: usize = 8;
    assert(all =~= hex_text(rest as int, 8) + out@);
    while k > 0
        invariant
            k <= 8,
            out@.len() == 8 - k,
            all == hex_text(rest as int, k as nat) + out@,
        decreases k,
    {
        let ghost before = out@;
        let d: u32 = rest % 16;
        let c: u8 = if d < 10 {
            0x30 + d as u8
        } else {
            0x61 + (d as u8 - 10)
        };
        out.insert(0, c);
        proof {
            assert(hex_text(rest as int, k as nat) == hex_text(
                rest as int / 16,
                (k - 1) as nat,
            ).push(c));
            assert(hex_text(rest as int, k as nat) + before =~= hex_text(
                rest as int / 16,
                (k - 1) as nat,
            ) + (seq![c] + before));
            assert(out@ =~= seq![c] + before);
        }
        rest = rest / 16;
        k = k - 1;
    }
    assert(all =~= out@);
    out
}

/// A path: the names of directories, and that of a file or directory.
pub type Names = Seq<Seq<u8>>;

pub open spec fn names(p: Seq<Vec<u8>>) -> Names {
    Seq::new(p.len(), |i: int| p[i]@)
}

/// A path with a name added.
pub fn joined(path: Vec<Vec<u8>>, name: Vec<u8>) -> (r: Vec<Vec<u8>>)
    ensures
        names(r@) == names(path@).push(name@),
{
    let ghost p = path@;
    let mut path = path;
    path.push(name);
    assert(names(path@) =~= names(p).push(name@));
    path
}

/// A copy of a path.
pub fn copied(path: &Vec<Vec<u8>>) -> (r: Vec<Vec<u8>>)
    ensures
        names(r@) == names(path@),
{
    let mut out: Vec<Vec<u8>> = Vec::new();
    let n: usize = path.len();
    let mut i: usize = 0;
    while i < n
        invariant
            i <= n == path@.len(),
            out@.len() == i,
            forall|k: int| 0 <= k < i ==> (#[trigger] out@[k])@ == path@[k]@,
        decreases n - i,
    {
        let len: usize = path[i].len();
        let name = crate::random_access_file::copy_range(&path[i], 0, len);
        assert(name@ =~= path@[i as int]@);
        out.push(name);
        i = i + 1;
    }
    assert(names(out@) =~= names(path@));
    out
}

/// The two names that stand for a number of 64 bits.
pub open spec fn id_names(id: u64) -> Names {
    seq![hex_text(id as int / 0x1_0000_0000, 8), hex_text(id as int % 0x1_0000_0000, 8)]
}

/// Adds the two names that stand for a number.
pub fn join_id(path: Vec<Vec<u8>>, id: u64) -> (r: Vec<Vec<u8>>)
    ensures
        names(r@) == names(path@) + id_names(id),
{
    let ghost p = names(path@);
    let high: u32 = (id / 0x1_0000_0000) as u32;
    let low: u32 = (id % 0x1_0000_0000) as u32;
    let r = joined(joined(path, hex8(high)), hex8(low));
    assert(names(r@) =~= p + id_names(id));
    r
}

/// `00000001.sav`
pub open spec fn sav_name() -> Seq<u8> {
    seq![
        0x30u8, 0x30, 0x30, 0x30, 0x30, 0x30, 0x30, 0x31, 0x2E, 0x73, 0x61, 0x76,
    ]
}

/// `title`
pub open spec fn title_name() -> Seq<u8> {
    seq![0x74u8, 0x69, 0x74, 0x6C, 0x65]
}

/// `data`
pub open spec fn data_name() -> Seq<u8> {
    seq![0x64u8, 0x61, 0x74, 0x61]
}

/// `sysdata`
pub open spec fn sysdata_name() -> Seq<u8> {
    seq![0x73u8, 0x79, 0x73, 0x64, 0x61, 0x74, 0x61]
}

/// `extdata`
pub open spec fn extdata_name() -> Seq<u8> {
    seq![0x65u8, 0x78, 0x74, 0x64, 0x61, 0x74, 0x61]
}

/// `dbs`
pub open spec fn dbs_name() -> Seq<u8> {
    seq![0x64u8, 0x62, 0x73]
}

/// `Quota.dat`
pub open spec fn quota_name() -> Seq<u8> {
    seq![0x51u8, 0x75, 0x6F, 0x74, 0x61, 0x2E, 0x64, 0x61, 0x74]
}

/// The name of the file of a database.
pub open spec fn db_name(t: DbType) -> Seq<u8> {
    match t {
        // title.db
        DbType::NandTitle | DbType::SdTitle => seq![
            0x74u8, 0x69, 0x74, 0x6C, 0x65, 0x2E, 0x64, 0x62,
        ],
        // import.db
        DbType::NandImport | DbType::SdImport => seq![
            0x69u8, 0x6D, 0x70, 0x6F, 0x72, 0x74, 0x2E, 0x64, 0x62,
        ],
        // tmp_t.db
        DbType::TmpTitle => seq![0x74u8, 0x6D, 0x70, 0x5F, 0x74, 0x2E, 0x64, 0x62],
        // tmp_i.db
        DbType::TmpImport => seq![0x74u8, 0x6D, 0x70, 0x5F, 0x69, 0x2E, 0x64, 0x62],
        // ticket.db
        DbType::Ticket => seq![0x74u8, 0x69, 0x63, 0x6B, 0x65, 0x74, 0x2E, 0x64, 0x62],
    }
}

/// The path of the save data of a title on the card.
pub open spec fn sd_save_names(id: u64) -> Names {
    seq![title_name()] + id_names(id) + seq![data_name(), sav_name()]
}

/// The path of the list of files of extra data on the card.
pub open spec fn sd_ext_names(id: u64) -> Names {
    seq![extdata_name()] + id_names(id) + seq![hex_text(0, 8), hex_text(1, 8)]
}

/// The path of a system save in the console's storage.
pub open spec fn nand_save_names(id0: Seq<u8>, id: u32) -> Names {
    seq![data_name(), id0, sysdata_name(), hex_text(id as int, 8), hex_text(0, 8)]
}

/// The path that extra data is below in the console's storage.
pub open spec fn nand_ext_names(id0: Seq<u8>) -> Names {
    seq![data_name(), id0, extdata_name()]
}

/// The path of the quota of extra data, below a path.
pub open spec fn ext_quota_names(base: Names, id: u64) -> Names {
    base + id_names(id) + seq![quota_name()]
}

/// The path of a database.
pub open spec fn db_names(t: DbType) -> Names {
    seq![dbs_name(), db_name(t)]
}

/// Where the save data of a title is on the SD card.
pub fn sd_save_path(id: u64) -> (r: Vec<Vec<u8>>)
    ensures
        names(r@) == sd_save_names(id),
{
    let title: Vec<u8> = vec![0x74u8, 0x69, 0x74, 0x6C, 0x65];
    assert(title@ =~= title_name());
    let data: Vec<u8> = vec![0x64u8, 0x61, 0x74, 0x61];
    assert(data@ =~= data_name());
    let sav: Vec<u8> = vec![
        0x30u8, 0x30, 0x30, 0x30, 0x30, 0x30, 0x30, 0x31, 0x2E, 0x73, 0x61, 0x76,
    ];
    assert(sav@ =~= sav_name());
    let path: Vec<Vec<u8>> = Vec::new();
    let path = joined(path, title);
    assert(names(path@) =~= seq![title_name()]);
    let r = joined(joined(join_id(path, id), data), sav);
    assert(names(r@) =~= seq![title_name()] + id_names(id) + seq![data_name(), sav_name()]);
    r
}

/// Where a system save is on the NAND.
pub fn nand_save_path(id0: Vec<u8>, id: u32) -> (r: Vec<Vec<u8>>)
    ensures
        names(r@) == nand_save_names(id0@, id),
{
    let data: Vec<u8> = vec![0x64u8, 0x61, 0x74, 0x61];
    assert(data@ =~= data_name());
    let sysdata: Vec<u8> = vec![0x73u8, 0x79, 0x73, 0x64, 0x61, 0x74, 0x61];
    assert(sysdata@ =~= sysdata_name());
    let path: Vec<Vec<u8>> = Vec::new();
    let r = joined(
        joined(joined(joined(joined(path, data), id0), sysdata), hex8(id)),
        hex8(0),
    );
    assert(names(r@) =~= seq![
        data_name(),
        id0@,
        sysdata_name(),
        hex_text(id as int, 8),
        hex_text(0, 8),
    ]);
    r
}

/// Where extra data is on the SD card.
pub fn sd_ext_base() -> (r: Vec<Vec<u8>>)
    ensures
        names(r@) == seq![extdata_name()],
{
    let ext: Vec<u8> = vec![0x65u8, 0x78, 0x74, 0x64, 0x61, 0x74, 0x61];
    assert(ext@ =~= extdata_name());
    let path: Vec<Vec<u8>> = Vec::new();
    let r = joined(path, ext);
    assert(names(r@) =~= seq![extdata_name()]);
    r
}

/// Where extra data is on the NAND.
pub fn nand_ext_base(id0: Vec<u8>) -> (r: Vec<Vec<u8>>)
    ensures
        names(r@) == nand_ext_names(id0@),
{
    let data: Vec<u8> = vec![0x64u8, 0x61, 0x74, 0x61];
    assert(data@ =~= data_name());
    let ext: Vec<u8> = vec![0x65u8, 0x78, 0x74, 0x64, 0x61, 0x74, 0x61];
    assert(ext@ =~= extdata_name());
    let path: Vec<Vec<u8>> = Vec::new();
    let r = joined(joined(joined(path, data), id0), ext);
    assert(names(r@) =~= seq![data_name(), id0@, extdata_name()]);
    r
}

/// Where a database is.
pub fn db_path(t: &DbType) -> (r: Vec<Vec<u8>>)
    ensures
        names(r@) == db_names(*t),
{
    let dbs: Vec<u8> = vec![0x64u8, 0x62, 0x73];
    assert(dbs@ =~= dbs_name());
    let name: Vec<u8> = match t {
        DbType::NandTitle | DbType::SdTitle => vec![
            0x74u8, 0x69, 0x74, 0x6C, 0x65, 0x2E, 0x64, 0x62,
        ],
        DbType::NandImport | DbType::SdImport => vec![
            0x69u8, 0x6D, 0x70, 0x6F, 0x72, 0x74, 0x2E, 0x64, 0x62,
        ],
        DbType::TmpTitle => vec![0x74u8, 0x6D, 0x70, 0x5F, 0x74, 0x2E, 0x64, 0x62],
        DbType::TmpImport => vec![0x74u8, 0x6D, 0x70, 0x5F, 0x69, 0x2E, 0x64, 0x62],
        DbType::Ticket => vec![0x74u8, 0x69, 0x63, 0x6B, 0x65, 0x74, 0x2E, 0x64, 0x62],
    };
    assert(name@ =~= db_name(*t));
    let path: Vec<Vec<u8>> = Vec::new();
    let r = joined(joined(path, dbs), name);
    assert(names(r@) =~= seq![dbs_name(), db_name(*t)]);
    r
}

/// The number of a file of extra data: the directory that it is in, and its place there.
pub open spec fn file_id(ino: int) -> (int, int) {
    ((ino + 1) / 126, (ino + 1) % 126)
}

/// The directory that extra data is in.
pub fn ext_dir_path(base: Vec<Vec<u8>>, id: u64) -> (r: Vec<Vec<u8>>)
    ensures
        names(r@) == names(base@) + id_names(id),
{
    join_id(base, id)
}

/// Where the list of files of extra data is.
pub fn ext_meta_path(base: Vec<Vec<u8>>, id: u64) -> (r: Vec<Vec<u8>>)
    ensures
        names(r@) == names(base@) + id_names(id) + seq![hex_text(0, 8), hex_text(1, 8)],
{
    let ghost b = names(base@);
    let r = joined(joined(join_id(base, id), hex8(0)), hex8(1));
    assert(names(r@) =~= b + id_names(id) + seq![hex_text(0, 8), hex_text(1, 8)]);
    r
}

/// Where the quota of extra data is.
pub fn ext_quota_path(base: Vec<Vec<u8>>, id: u64) -> (r: Vec<Vec<u8>>)
    ensures
        names(r@) == ext_quota_names(names(base@), id),
{
    let ghost b = names(base@);
    let quota: Vec<u8> = vec![0x51u8, 0x75, 0x6F, 0x74, 0x61, 0x2E, 0x64, 0x61, 0x74];
    assert(quota@ =~= quota_name());
    let r = joined(join_id(base, id), quota);
    assert(names(r@) =~= b + id_names(id) + seq![quota_name()]);
    r
}

/// Where a file of extra data is.
pub fn ext_file_path(base: Vec<Vec<u8>>, id: u64, ino: u32) -> (r: Vec<Vec<u8>>)
    requires
        ino < u32::MAX,
    ensures
        names(r@) == names(base@) + id_names(id) + seq![
            hex_text(file_id(ino as int).0, 8),
            hex_text(file_id(ino as int).1, 8),
        ],
        ino >= 1 ==> names(r@) != names(base@) + id_names(id) + seq![hex_text(0, 8), hex_text(1, 8)],
{
    let ghost b = names(base@);
    let index: u32 = ino + 1;
    let r = joined(joined(join_id(base, id), hex8(index / 126)), hex8(index % 126));
    assert(names(r@) =~= b + id_names(id) + seq![
        hex_text(file_id(ino as int).0, 8),
        hex_text(file_id(ino as int).1, 8),
    ]);
    proof {
        if ino >= 1 {
            law_no_file_is_the_list(b, id, ino as int);
        }
    }
    r
}

} // verus!
