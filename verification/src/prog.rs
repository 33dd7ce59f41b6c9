//! Embedded program registry: program images the kernel carries until
//! the root filesystem can serve them (the VFS looks on disk first).

use vstd::prelude::*;
use vstd::string::StringSliceAdditionalSpecFns;
use crate::fs::ramfs::{self, spec_find, files_view};

verus! {

/// The image registered under `name`, first match wins.
pub fn lookup<'a>(programs: &'a Vec<(Vec<u8>, Vec<u8>)>, name: &str) -> (r: Option<&'a [u8]>)
    ensures
        match r {
            Some(b) => spec_find(files_view(programs@), name.spec_bytes()) == Some(b@),
            None => spec_find(files_view(programs@), name.spec_bytes()) is None,
        },
{
    ramfs::lookup(programs, name)
}

} // verus!
