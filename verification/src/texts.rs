use crate::db::DbType;
use crate::error::Error;
use vstd::prelude::*;

verus! {

use crate::names::{byte_text, bytes_text, digit_value, name_text, shown_len};
use crate::options::{
    block_len_key, db_word, default_bucket, dir_buckets_key, duplicate_data_key, false_word,
    file_buckets_key, len_key, max_dir_key, max_file_key, no_small_factor, true_word,
};
use crate::places::spelled;

/// A byte of a name is shown as itself where it is a character from the space to the tilde, but
/// not a slash or a backslash. Else it is shown as a backslash, an x and two digits.
pub proof fn law_byte_is_shown(c: u8)
    ensures
        0x20 <= c <= 0x7E && c != 0x2F && c != 0x5C ==> byte_text(c) == seq![c],
        !(0x20 <= c <= 0x7E && c != 0x2F && c != 0x5C) ==> {
            let t = byte_text(c);
            &&& t.len() == 4
            &&& t[0] == 0x5C
            &&& t[1] == 0x78
            &&& digit_value(t[2]) matches Some(h) && (digit_value(t[3]) matches Some(l) && 16 * h + l
                == c)
        },
{
}

proof fn lemma_printable(s: Seq<u8>, i: int)
    requires
        0 <= i < bytes_text(s).len(),
    ensures
        0x20 <= bytes_text(s)[i] <= 0x7E && bytes_text(s)[i] != 0x2F,
    decreases s.len(),
{
    let a = bytes_text(s.drop_last());
    if i < a.len() {
        lemma_printable(s.drop_last(), i);
        assert(bytes_text(s)[i] == a[i]);
    } else {
        let c = s.last();
        assert(bytes_text(s)[i] == byte_text(c)[i - a.len()]);
    }
}

/// A name is shown as a text that a file of the host can have: no character that cannot be printed
/// is in it, and no slash.
pub proof fn law_shown_name_can_be_printed(name: Seq<u8>, i: int)
    requires
        0 <= i < name_text(name).len(),
    ensures
        0x20 <= name_text(name)[i] <= 0x7E,
        name_text(name)[i] != 0x2F,
{
    lemma_printable(name.take(shown_len(name, 16) as int), i);
}

/// The words for the databases.
pub proof fn law_words_of_databases(t: DbType)
    ensures
        t is NandTitle ==> spelled(db_word(t), "nandtitle"@),
        t is NandImport ==> spelled(db_word(t), "nandimport"@),
        t is TmpTitle ==> spelled(db_word(t), "tmptitle"@),
        t is TmpImport ==> spelled(db_word(t), "tmpimport"@),
        t is SdTitle ==> spelled(db_word(t), "sdtitle"@),
        t is SdImport ==> spelled(db_word(t), "sdimport"@),
        t is Ticket ==> spelled(db_word(t), "ticket"@),
{
    reveal_strlit("nandtitle");
    reveal_strlit("nandimport");
    reveal_strlit("tmptitle");
    reveal_strlit("tmpimport");
    reveal_strlit("sdtitle");
    reveal_strlit("sdimport");
    reveal_strlit("ticket");
}

/// The words for the parameters of a new archive.
pub proof fn law_words_of_parameters()
    ensures
        spelled(max_dir_key(), "max_dir"@),
        spelled(max_file_key(), "max_file"@),
        spelled(dir_buckets_key(), "dir_buckets"@),
        spelled(file_buckets_key(), "file_buckets"@),
        spelled(block_len_key(), "block_len"@),
        spelled(duplicate_data_key(), "duplicate_data"@),
        spelled(len_key(), "len"@),
        spelled(true_word(), "true"@),
        spelled(false_word(), "false"@),
{
    reveal_strlit("max_dir");
    reveal_strlit("max_file");
    reveal_strlit("dir_buckets");
    reveal_strlit("file_buckets");
    reveal_strlit("block_len");
    reveal_strlit("duplicate_data");
    reveal_strlit("len");
    reveal_strlit("true");
    reveal_strlit("false");
}

/// The number of buckets for some entries is odd and at least 3. For many entries it has no divisor
/// up to 18, and each number from that of the entries up to it has one.
pub proof fn law_number_of_buckets(n: int, c: int, k: int)
    requires
        0 <= n,
        default_bucket(n, c),
    ensures
        c % 2 == 1,
        c >= 3,
        c >= n,
        n < 3 ==> c == 3,
        3 <= n < 19 ==> c <= n + 1,
        n >= 19 && 2 <= k <= 18 ==> c % k != 0,
        n >= 19 && n <= k < c ==> exists|d: int| 2 <= d <= 18 && #[trigger] (k % d) == 0,
{
    if n >= 19 {
        if 2 <= k <= 18 {
            lemma_composite(c, k);
        }
        if n <= k < c {
            assert(!no_small_factor(k));
            assert(k % 2 == 0 || k % 3 == 0 || k % 5 == 0 || k % 7 == 0 || k % 11 == 0 || k % 13
                == 0 || k % 17 == 0);
        }
    }
}

proof fn lemma_composite(c: int, k: int)
    requires
        no_small_factor(c),
        2 <= k <= 18,
    ensures
        c % k != 0,
{
    if k == 4 || k == 6 || k == 8 || k == 10 || k == 12 || k == 14 || k == 16 || k == 18 {
        assert(c % k != 0) by (nonlinear_arith)
            requires
                c % 2 != 0,
                k == 4 || k == 6 || k == 8 || k == 10 || k == 12 || k == 14 || k == 16 || k == 18,
        ;
    } else if k == 9 || k == 15 {
        assert(c % k != 0) by (nonlinear_arith)
            requires
                c % 3 != 0,
                k == 9 || k == 15,
        ;
    }
}

/// A text begins with some words.
pub open spec fn begins(t: Seq<char>, words: Seq<char>) -> bool {
    &&& words.len() <= t.len()
    &&& forall|i: int| 0 <= i < words.len() ==> t[i] == #[trigger] words[i]
}

/// A text ends with some words.
pub open spec fn ends(t: Seq<char>, words: Seq<char>) -> bool {
    let n = t.len() - words.len();
    &&& 0 <= n
    &&& forall|i: int| 0 <= i < words.len() ==> t[n + i] == #[trigger] words[i]
}

/// An error on data that are broken tells first what is wrong, and last that data are corrupted.
pub proof fn law_errors_of_broken_data(e: Error)
    ensures
        e is OutOfBound || e is MagicMismatch || e is SizeMismatch || e is InvalidValue
            || e is BrokenFat || e is SignatureMismatch || e is UniqueIdMismatch ==> ends(
            e.text(),
            "caused by corrupted data"@,
        ),
        e is OutOfBound ==> begins(e.text(), "Out-of-bound"@),
        e is MagicMismatch ==> begins(e.text(), "Magic"@),
        e is SizeMismatch ==> begins(e.text(), "Size"@),
        e is InvalidValue ==> begins(e.text(), "Invalid value"@),
        e is BrokenFat ==> begins(e.text(), "Broken FAT"@),
        e is SignatureMismatch ==> begins(e.text(), "Signature"@),
        e is UniqueIdMismatch ==> begins(e.text(), "Extdata unique ID"@),
{
    reveal_strlit("caused by corrupted data");
    reveal_strlit("Out-of-bound");
    reveal_strlit("Magic");
    reveal_strlit("Size");
    reveal_strlit("Invalid value");
    reveal_strlit("Broken FAT");
    reveal_strlit("Signature");
    reveal_strlit("Extdata unique ID");
    reveal_strlit("Out-of-bound access, caused by corrupted data");
    reveal_strlit("Magic mismatch, caused by corrupted data");
    reveal_strlit("Size mismatch, caused by corrupted data");
    reveal_strlit("Invalid value, caused by corrupted data");
    reveal_strlit("Broken FAT,  caused by corrupted data");
    reveal_strlit("Signature mismatch, caused by corrupted data");
    reveal_strlit("Extdata unique ID mismatch, caused by corrupted data");
}

/// An error on something that is missing tells what it is.
pub proof fn law_errors_of_missing_things(e: Error)
    ensures
        e is MissingBoot9 ==> e.text() == "Missing "@ + "boot9.bin"@,
        e is MissingNand ==> e.text() == "Missing "@ + "NAND"@,
        e is MissingGame ==> e.text() == "Missing "@ + "game"@,
        e is MissingPriv ==> e.text() == "Missing "@ + "private header"@,
        e is MissingKeyY2F ==> e.text() == "Missing "@ + "0x2F key Y"@,
        e is MissingKeyX19 ==> e.text() == "Missing "@ + "0x19 key X"@,
        e is MissingKeyX1A ==> e.text() == "Missing "@ + "0x1A key X"@,
        e is MissingOtp ==> e.text() == "Missing "@ + "OTP"@,
{
    reveal_strlit("Missing ");
    reveal_strlit("boot9.bin");
    reveal_strlit("NAND");
    reveal_strlit("game");
    reveal_strlit("private header");
    reveal_strlit("0x2F key Y");
    reveal_strlit("0x19 key X");
    reveal_strlit("0x1A key X");
    reveal_strlit("OTP");
    reveal_strlit("Missing boot9.bin");
    reveal_strlit("Missing NAND");
    reveal_strlit("Missing game");
    reveal_strlit("Missing private header");
    reveal_strlit("Missing 0x2F key Y");
    reveal_strlit("Missing 0x19 key X");
    reveal_strlit("Missing 0x1A key X");
    reveal_strlit("Missing OTP");
    assert("Missing boot9.bin"@ =~= "Missing "@ + "boot9.bin"@);
    assert("Missing NAND"@ =~= "Missing "@ + "NAND"@);
    assert("Missing game"@ =~= "Missing "@ + "game"@);
    assert("Missing private header"@ =~= "Missing "@ + "private header"@);
    assert("Missing 0x2F key Y"@ =~= "Missing "@ + "0x2F key Y"@);
    assert("Missing 0x19 key X"@ =~= "Missing "@ + "0x19 key X"@);
    assert("Missing 0x1A key X"@ =~= "Missing "@ + "0x1A key X"@);
    assert("Missing OTP"@ =~= "Missing "@ + "OTP"@);
}

/// No two errors are told with the same text.
pub proof fn law_errors_are_told_apart(e: Error, f: Error)
    requires
        e.text() == f.text(),
    ensures
        e == f,
{
    reveal_strlit("SHA256 mismatch, caused by either corrupted data or uninitialized data");
    reveal_strlit("Out-of-bound access, caused by corrupted data");
    reveal_strlit("Magic mismatch, caused by corrupted data");
    reveal_strlit("Size mismatch, caused by corrupted data");
    reveal_strlit("Invalid value, caused by corrupted data");
    reveal_strlit("Broken FAT,  caused by corrupted data");
    reveal_strlit("Insufficient space for the operation");
    reveal_strlit("The requested file or directory is not found");
    reveal_strlit("The file or directory to create already exists");
    reveal_strlit("Trying to delete the root directory");
    reveal_strlit("Signature mismatch, caused by corrupted data");
    reveal_strlit("Missing boot9.bin");
    reveal_strlit("Cannot open SD due to missing SD or movable.sed");
    reveal_strlit("Missing NAND");
    reveal_strlit("Missing game");
    reveal_strlit("Missing private header");
    reveal_strlit("Missing 0x2F key Y");
    reveal_strlit("Missing 0x19 key X");
    reveal_strlit("Missing 0x1A key X");
    reveal_strlit("Missing OTP");
    reveal_strlit("Corrupted SD");
    reveal_strlit("Trying to delete a non-empty directory");
    reveal_strlit("The operation is not supported on this archive");
    reveal_strlit("Extdata unique ID mismatch, caused by corrupted data");
    reveal_strlit("Corrupted OTP");
    reveal_strlit("The file or directory is currently used by other program");
    reveal_strlit("Provided game file is broken");
    let t = e.text();
    let u = f.text();
    assert(t.len() == u.len());
    assert(t[0] == u[0] && t[8] == u[8] && t[10] == u[10] && t[11] == u[11]);
}

} // verus!
