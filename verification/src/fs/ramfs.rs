//! In-memory filesystem for early boot: serves the program images the
//! kernel carries until (or in place of) the Minix3 root on the block
//! device. exec() falls back here when the disk has no such path.

use vstd::prelude::*;
use vstd::string::StringSliceAdditionalSpecFns;
use crate::fs::minix3::bytes_equal;

verus! {

/// The image stored under the first entry named `name`.
pub open spec fn spec_find(files: Seq<(Seq<u8>, Seq<u8>)>, name: Seq<u8>) -> Option<Seq<u8>>
    decreases files.len(),
{
    if files.len() == 0 {
        None
    } else if files[0].0 == name {
        Some(files[0].1)
    } else {
        spec_find(files.drop_first(), name)
    }
}

/// A table of `(name, image)` pairs as plain sequences.
pub open spec fn files_view(files: Seq<(Vec<u8>, Vec<u8>)>) -> Seq<(Seq<u8>, Seq<u8>)> {
    files.map_values(|e: (Vec<u8>, Vec<u8>)| (e.0@, e.1@))
}

/// The image of the first file named `name`.
pub fn lookup<'a>(files: &'a Vec<(Vec<u8>, Vec<u8>)>, name: &str) -> (r: Option<&'a [u8]>)
    ensures
        match r {
            Some(b) => spec_find(files_view(files@), name.spec_bytes()) == Some(b@),
            None => spec_find(files_view(files@), name.spec_bytes()) is None,
        },
{
    let nb = name.as_bytes();
    let ghost fv = files_view(files@);
    let mut i: usize = 0;
    assert(fv.skip(0) =~= fv);
    while i < files.len()
        invariant
            i <= files@.len(),
            fv == files_view(files@),
            nb@ == name.spec_bytes(),
            spec_find(fv, nb@) == spec_find(fv.skip(i as int), nb@),
        decreases files@.len() - i,
    {
        let ghost rest = fv.skip(i as int);
        assert(rest.drop_first() =~= fv.skip(i as int + 1));
        assert(rest[0] == (files@[i as int].0@, files@[i as int].1@));
        if bytes_equal(files[i].0.as_slice(), nb) {
            return Some(files[i].1.as_slice());
        }
        i = i + 1;
    }
    assert(fv.skip(i as int) =~= Seq::<(Seq<u8>, Seq<u8>)>::empty());
    None
}

} // verus!
