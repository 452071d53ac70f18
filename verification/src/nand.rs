use crate::error::Error;
use vstd::prelude::*;

verus! {

/// The decrypted content of a console's internal storage, as a directory.
pub struct Nand {
    path: String,
}

impl Nand {
    /// The directory.
    pub closed spec fn root(&self) -> Seq<char> {
        self.path@
    }

    /// Takes the directory that holds the content.
    pub fn new(nand_path: &str) -> (r: Result<Nand, Error>)
        ensures
            r matches Ok(nand) && nand.root() == nand_path@,
    {
        let path = nand_path.to_string();
        Ok(Nand { path })
    }
}

} // verus!
