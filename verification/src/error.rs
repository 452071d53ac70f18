use vstd::prelude::*;

verus! {

/// Everything that can go wrong while an archive is opened, read or modified.
#[derive(Debug, Clone, Copy, PartialEq, Eq, Structural)]
pub enum Error {
    HashMismatch,
    OutOfBound,
    MagicMismatch,
    SizeMismatch,
    InvalidValue,
    BrokenFat,
    NoSpace,
    NotFound,
    AlreadyExist,
    DeletingRoot,
    SignatureMismatch,
    MissingBoot9,
    MissingSd,
    MissingNand,
    MissingGame,
    MissingPriv,
    MissingKeyY2F,
    MissingKeyX19,
    MissingKeyX1A,
    MissingOtp,
    BrokenSd,
    NotEmpty,
    Unsupported,
    UniqueIdMismatch,
    BrokenOtp,
    Busy,
    BrokenGame,
}

/// Wraps an error as a failed result.
pub fn make_error<T>(e: Error) -> (r: Result<T, Error>)
    ensures
        r == Err::<T, Error>(e),
{
    Err(e)
}

impl Error {
    /// The text shown to the user for this error.
    pub open spec fn text(self) -> Seq<char> {
        match self {
            Error::HashMismatch =>
                "SHA256 mismatch, caused by either corrupted data or uninitialized data"@,
            Error::OutOfBound => "Out-of-bound access, caused by corrupted data"@,
            Error::MagicMismatch => "Magic mismatch, caused by corrupted data"@,
            Error::SizeMismatch => "Size mismatch, caused by corrupted data"@,
            Error::InvalidValue => "Invalid value, caused by corrupted data"@,
            Error::BrokenFat => "Broken FAT,  caused by corrupted data"@,
            Error::NoSpace => "Insufficient space for the operation"@,
            Error::NotFound => "The requested file or directory is not found"@,
            Error::AlreadyExist => "The file or directory to create already exists"@,
            Error::DeletingRoot => "Trying to delete the root directory"@,
            Error::SignatureMismatch => "Signature mismatch, caused by corrupted data"@,
            Error::MissingBoot9 => "Missing boot9.bin"@,
            Error::MissingSd => "Cannot open SD due to missing SD or movable.sed"@,
            Error::MissingNand => "Missing NAND"@,
            Error::MissingGame => "Missing game"@,
            Error::MissingPriv => "Missing private header"@,
            Error::MissingKeyY2F => "Missing 0x2F key Y"@,
            Error::MissingKeyX19 => "Missing 0x19 key X"@,
            Error::MissingKeyX1A => "Missing 0x1A key X"@,
            Error::MissingOtp => "Missing OTP"@,
            Error::BrokenSd => "Corrupted SD"@,
            Error::NotEmpty => "Trying to delete a non-empty directory"@,
            Error::Unsupported => "The operation is not supported on this archive"@,
            Error::UniqueIdMismatch => "Extdata unique ID mismatch, caused by corrupted data"@,
            Error::BrokenOtp => "Corrupted OTP"@,
            Error::Busy => "The file or directory is currently used by other program"@,
            Error::BrokenGame => "Provided game file is broken"@,
        }
    }

    /// Returns the text shown to the user for this error.
    pub fn message(&self) -> (s: &'static str)
        ensures
            s@ == self.text(),
    {
        match self {
            Error::HashMismatch =>
                "SHA256 mismatch, caused by either corrupted data or uninitialized data",
            Error::OutOfBound => "Out-of-bound access, caused by corrupted data",
            Error::MagicMismatch => "Magic mismatch, caused by corrupted data",
            Error::SizeMismatch => "Size mismatch, caused by corrupted data",
            Error::InvalidValue => "Invalid value, caused by corrupted data",
            Error::BrokenFat => "Broken FAT,  caused by corrupted data",
            Error::NoSpace => "Insufficient space for the operation",
            Error::NotFound => "The requested file or directory is not found",
            Error::AlreadyExist => "The file or directory to create already exists",
            Error::DeletingRoot => "Trying to delete the root directory",
            Error::SignatureMismatch => "Signature mismatch, caused by corrupted data",
            Error::MissingBoot9 => "Missing boot9.bin",
            Error::MissingSd => "Cannot open SD due to missing SD or movable.sed",
            Error::MissingNand => "Missing NAND",
            Error::MissingGame => "Missing game",
            Error::MissingPriv => "Missing private header",
            Error::MissingKeyY2F => "Missing 0x2F key Y",
            Error::MissingKeyX19 => "Missing 0x19 key X",
            Error::MissingKeyX1A => "Missing 0x1A key X",
            Error::MissingOtp => "Missing OTP",
            Error::BrokenSd => "Corrupted SD",
            Error::NotEmpty => "Trying to delete a non-empty directory",
            Error::Unsupported => "The operation is not supported on this archive",
            Error::UniqueIdMismatch => "Extdata unique ID mismatch, caused by corrupted data",
            Error::BrokenOtp => "Corrupted OTP",
            Error::Busy => "The file or directory is currently used by other program",
            Error::BrokenGame => "Provided game file is broken",
        }
    }
}

} // verus!
