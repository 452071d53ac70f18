use crate::db::DbType;
use crate::resource::Resource;
use vstd::prelude::*;

verus! {

use crate::ext_data::meta_signer;
use crate::ext_file::file_signer;
use crate::paths::{
    db_names, ext_quota_names, file_id, hex_digit, hex_text, id_names, nand_ext_names,
    nand_save_names, sd_ext_names, sd_save_names, Names,
};
use vstd::arithmetic::power::pow;

/// A name has the letters of a text.
pub open spec fn spelled(name: Seq<u8>, text: Seq<char>) -> bool {
    &&& name.len() == text.len()
    &&& forall|i: int| 0 <= i < name.len() ==> #[trigger] name[i] as int == text[i] as int
}

/// The value of a digit to the base of sixteen.
pub open spec fn digit_value(c: u8) -> int {
    if 0x30 <= c <= 0x39 {
        c - 0x30
    } else if 0x61 <= c <= 0x66 {
        c - 0x57
    } else {
        -1
    }
}

/// The number that digits to the base of sixteen write down, the highest one first.
pub open spec fn hex_value(t: Seq<u8>) -> int
    decreases t.len(),
{
    if t.len() == 0 {
        0
    } else {
        16 * hex_value(t.drop_last()) + digit_value(t.last())
    }
}

proof fn lemma_hex(v: int, n: nat)
    requires
        0 <= v < pow(16, n),
    ensures
        hex_text(v, n).len() == n,
        hex_value(hex_text(v, n)) == v,
        forall|i: int| 0 <= i < n ==> 0 <= #[trigger] digit_value(hex_text(v, n)[i]) < 16,
    decreases n,
{
    reveal(pow);
    if n > 0 {
        let m = (n - 1) as nat;
        assert(pow(16, n) == 16 * pow(16, m));
        assert(v / 16 < pow(16, m)) by (nonlinear_arith)
            requires
                v < 16 * pow(16, m),
        ;
        lemma_hex(v / 16, m);
        let t = hex_text(v, n);
        let u = hex_text(v / 16, m);
        assert(t.drop_last() =~= u);
        assert(digit_value(hex_digit(v % 16)) == v % 16);
        assert forall|i: int| 0 <= i < n implies 0 <= #[trigger] digit_value(t[i]) < 16 by {
            if i < m {
                assert(t[i] == u[i]);
                assert(0 <= digit_value(u[i]) < 16);
            }
        }
    }
}

/// A number of 32 bits is named by its eight digits to the base of sixteen, in small letters, the
/// highest digit first.
pub proof fn law_eight_digits(v: int)
    requires
        0 <= v < 0x1_0000_0000,
    ensures
        hex_text(v, 8).len() == 8,
        hex_value(hex_text(v, 8)) == v,
        forall|i: int| 0 <= i < 8 ==> 0 <= #[trigger] digit_value(hex_text(v, 8)[i]) < 16,
{
    assert(pow(16, 8) == 0x1_0000_0000) by {
        reveal_with_fuel(pow, 9);
    }
    lemma_hex(v, 8);
}

/// A number of 64 bits is named by its two halves, the high one first.
pub proof fn law_two_halves(id: u64)
    ensures
        id_names(id).len() == 2,
        hex_value(id_names(id)[0]) * 0x1_0000_0000 + hex_value(id_names(id)[1]) == id,
        0 <= hex_value(id_names(id)[1]) < 0x1_0000_0000,
{
    law_eight_digits(id as int / 0x1_0000_0000);
    law_eight_digits(id as int % 0x1_0000_0000);
}

/// The two names, below those of extra data, that a file has which is listed under a number.
pub open spec fn file_names(ino: int) -> Names {
    seq![hex_text(file_id(ino).0, 8), hex_text(file_id(ino).1, 8)]
}

/// A file of extra data is in a directory with up to 126 of them. Counted through all directories,
/// its place is one higher than its number in the list, since the list itself has a place too.
pub proof fn law_place_of_file(ino: int)
    requires
        0 <= ino < u32::MAX,
    ensures
        file_names(ino).len() == 2,
        126 * hex_value(file_names(ino)[0]) + hex_value(file_names(ino)[1]) == ino + 1,
        0 <= hex_value(file_names(ino)[1]) < 126,
{
    law_eight_digits(file_id(ino).0);
    law_eight_digits(file_id(ino).1);
}

/// No file of extra data is where the list of files is.
pub proof fn law_no_file_is_the_list(base: Names, id: u64, ino: int)
    requires
        1 <= ino < u32::MAX,
    ensures
        base + id_names(id) + file_names(ino) != base + id_names(id) + seq![
            hex_text(0, 8),
            hex_text(1, 8),
        ],
{
    law_place_of_file(ino);
    law_eight_digits(0);
    law_eight_digits(1);
    let a = base + id_names(id);
    let p = a + file_names(ino);
    let q = a + seq![hex_text(0, 8), hex_text(1, 8)];
    assert(p[a.len() as int] == file_names(ino)[0] && p[a.len() as int + 1] == file_names(ino)[1]);
    assert(q[a.len() as int] == hex_text(0, 8) && q[a.len() as int + 1] == hex_text(1, 8));
}

/// No two files of extra data are in one place.
pub proof fn law_files_are_apart(base: Names, id: u64, i: int, j: int)
    requires
        0 <= i < u32::MAX,
        0 <= j < u32::MAX,
        i != j,
    ensures
        base + id_names(id) + file_names(i) != base + id_names(id) + file_names(j),
{
    law_place_of_file(i);
    law_place_of_file(j);
    let a = base + id_names(id);
    let p = a + file_names(i);
    let q = a + file_names(j);
    assert(p[a.len() as int] == file_names(i)[0] && p[a.len() as int + 1] == file_names(i)[1]);
    assert(q[a.len() as int] == file_names(j)[0] && q[a.len() as int + 1] == file_names(j)[1]);
}

/// A file of extra data, and the list of files too, is named by the number that it is signed with.
pub proof fn law_named_as_signed(id: u64, ino: int)
    requires
        0 <= ino < u32::MAX,
    ensures
        file_signer(id, ino).id == id,
        file_signer(id, ino).sub_id matches Some(n) && file_names(ino) == id_names(n),
        meta_signer(id).id == id,
        meta_signer(id).sub_id matches Some(n) && id_names(n) == seq![
            hex_text(0, 8),
            hex_text(1, 8),
        ],
        file_signer(id, ino) == meta_signer(id) ==> ino == 0,
{
    let n = file_signer(id, ino).sub_id->0;
    let (h, l) = file_id(ino);
    assert(0 <= h < 0x300_0000 && 0 <= l < 126);
    assert(n == h * 0x1_0000_0000 + l);
    assert(n as int / 0x1_0000_0000 == h && n as int % 0x1_0000_0000 == l);
    assert(file_names(ino) =~= id_names(n));
    assert(id_names(1) =~= seq![hex_text(0, 8), hex_text(1, 8)]);
}

/// Where the files of save data and extra data are, by name. In the console's storage they are
/// below a directory that belongs to the console, and the quota is beside the files.
pub proof fn law_names_of_archives(id: u64, id0: Seq<u8>, system: u32, base: Names)
    ensures
        ({
            let p = sd_save_names(id);
            &&& p.len() == 5
            &&& spelled(p[0], "title"@)
            &&& p.subrange(1, 3) == id_names(id)
            &&& spelled(p[3], "data"@)
            &&& spelled(p[4], "00000001.sav"@)
        }),
        ({
            let p = sd_ext_names(id);
            &&& p.len() == 5
            &&& spelled(p[0], "extdata"@)
            &&& p.subrange(1, 3) == id_names(id)
            &&& spelled(p[3], "00000000"@)
            &&& spelled(p[4], "00000001"@)
        }),
        ({
            let p = nand_save_names(id0, system);
            &&& p.len() == 5
            &&& spelled(p[0], "data"@)
            &&& p[1] == id0
            &&& spelled(p[2], "sysdata"@)
            &&& hex_value(p[3]) == system
            &&& spelled(p[4], "00000000"@)
        }),
        ({
            let p = nand_ext_names(id0);
            &&& p.len() == 3
            &&& spelled(p[0], "data"@)
            &&& p[1] == id0
            &&& spelled(p[2], "extdata"@)
        }),
        ({
            let p = ext_quota_names(base, id);
            &&& p.len() == base.len() + 3
            &&& p.take(base.len() as int) == base
            &&& p.subrange(base.len() as int, base.len() as int + 2) == id_names(id)
            &&& spelled(p.last(), "Quota.dat"@)
        }),
{
    reveal_strlit("title");
    reveal_strlit("data");
    reveal_strlit("00000001.sav");
    reveal_strlit("extdata");
    reveal_strlit("00000000");
    reveal_strlit("00000001");
    reveal_strlit("sysdata");
    reveal_strlit("Quota.dat");
    reveal_with_fuel(hex_text, 9);
    assert(sd_save_names(id).subrange(1, 3) =~= id_names(id));
    assert(sd_ext_names(id).subrange(1, 3) =~= id_names(id));
    law_eight_digits(system as int);
    let q = ext_quota_names(base, id);
    assert(q.take(base.len() as int) =~= base);
    assert(q.subrange(base.len() as int, base.len() as int + 2) =~= id_names(id));
}

/// Where the databases are, by name. The databases of the card have the names of those of the
/// console's storage.
pub proof fn law_names_of_databases(t: DbType)
    ensures
        db_names(t).len() == 2,
        spelled(db_names(t)[0], "dbs"@),
        t is NandTitle || t is SdTitle ==> spelled(db_names(t)[1], "title.db"@),
        t is NandImport || t is SdImport ==> spelled(db_names(t)[1], "import.db"@),
        t is TmpTitle ==> spelled(db_names(t)[1], "tmp_t.db"@),
        t is TmpImport ==> spelled(db_names(t)[1], "tmp_i.db"@),
        t is Ticket ==> spelled(db_names(t)[1], "ticket.db"@),
{
    reveal_strlit("dbs");
    reveal_strlit("title.db");
    reveal_strlit("import.db");
    reveal_strlit("tmp_t.db");
    reveal_strlit("tmp_i.db");
    reveal_strlit("ticket.db");
}

/// The databases of the card are encrypted as any file of the card is, and signed with the key of
/// save data. Those of the console's storage are as they are, and have a key of their own.
pub proof fn law_databases_of_card(r: Resource, t: DbType, stored: Seq<u8>)
    ensures
        t is SdTitle || t is SdImport ==> {
            &&& r.db_key(t) == r.key_sign
            &&& r.sd matches Some(sd) ==> r.db_file(t, stored) == sd.ciphered(db_names(t), stored)
        },
        !(t is SdTitle || t is SdImport) ==> {
            &&& r.db_key(t) == r.key_db
            &&& r.db_file(t, stored) == stored
        },
{
}

} // verus!
