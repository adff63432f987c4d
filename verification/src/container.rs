//! How a source tells that it is compressed.

use vstd::prelude::*;

verus! {

/// How many bytes of a source tell whether it is a gzip stream.
pub const GZ_MAGIC_LEN: usize = 2;

/// The first byte of a gzip stream.
pub const GZ_MAGIC_FIRST: u8 = 0x1F;

/// The second byte of a gzip stream.
pub const GZ_MAGIC_SECOND: u8 = 0x8B;

/// `s` begins with the two bytes that begin every gzip stream.
pub open spec fn has_gz_magic(s: Seq<u8>) -> bool {
    s.len() >= GZ_MAGIC_LEN && s[0] == GZ_MAGIC_FIRST && s[1] == GZ_MAGIC_SECOND
}

/// Whether `s` begins as a gzip stream does. A caller looks at the first
/// bytes of a source with this, and then reads the source from its start
/// again, through a decompressor or as it is.
pub fn is_gz_magic(s: &[u8]) -> (res: bool)
    ensures
        res == has_gz_magic(s@),
{
    s.len() >= GZ_MAGIC_LEN && s[0] == GZ_MAGIC_FIRST && s[1] == GZ_MAGIC_SECOND
}

} // verus!
