//! The header of a flattened device tree.
//!
//! The header says where the structure block and the strings block lie in the data.
use vstd::prelude::*;
use crate::platform::bytes;
use crate::platform::bytes::read_be32;
use crate::platform::dtb::Dtb;
use crate::platform::probe;
use crate::platform::probe::{probe_dtb, HeaderError, PlatformConfig, ProbeError};

verus! {

/// The first word.
pub const MAGIC: u32 = 0xD00D_FEED;

/// The version of the format that is understood.
pub const VERSION: u32 = 17;

/// Size of the header.
pub const HEADER_SIZE: usize = 40;

/// The blocks of a device tree.
#[derive(Clone, Copy)]
pub struct Blocks<'a> {
    pub structure: &'a [u8],
    pub strings: &'a [u8],
}

/// The block at the offset in word `off_at`, with the size in word `size_at`, lies in the data.
pub open spec fn block_inside(b: Seq<u8>, off_at: int, size_at: int) -> bool {
    let total = bytes::be32(b, 4);
    total <= b.len() && bytes::be32(b, off_at) + bytes::be32(b, size_at) <= total
}

/// The block at the offset in word `off_at`, with the size in word `size_at`.
pub open spec fn block_of(b: Seq<u8>, off_at: int, size_at: int) -> Seq<u8> {
    let off = bytes::be32(b, off_at) as int;
    b.subrange(off, off + bytes::be32(b, size_at))
}

/// What is wrong with the header; `None` if nothing is.
pub open spec fn refusal(b: Seq<u8>) -> Option<HeaderError> {
    if b.len() < HEADER_SIZE {
        Some(HeaderError::OutOfBounds)
    } else if bytes::be32(b, 0) != MAGIC {
        Some(HeaderError::BadMagic)
    } else if bytes::be32(b, 20) < VERSION || bytes::be32(b, 24) > VERSION {
        Some(HeaderError::BadVersion)
    } else if !block_inside(b, 8, 36) || !block_inside(b, 12, 32) || bytes::be32(b, 36) % 4 != 0
        || bytes::be32(b, 36) >= 0xFFFF_FFF0 {
        Some(HeaderError::OutOfBounds)
    } else {
        None
    }
}

/// Checks the header and finds the blocks.
pub fn validate(blob: &[u8]) -> (r: Result<Blocks<'_>, HeaderError>)
    ensures
        match refusal(blob@) {
            Some(e) => r == Err::<Blocks, HeaderError>(e),
            None => r matches Ok(k) && k.structure@ == block_of(blob@, 8, 36) && k.strings@
                == block_of(blob@, 12, 32),
        },
{
    if blob.len() < HEADER_SIZE {
        return Err(HeaderError::OutOfBounds);
    }
    if read_be32(blob, 0) != MAGIC {
        return Err(HeaderError::BadMagic);
    }
    if read_be32(blob, 20) < VERSION || read_be32(blob, 24) > VERSION {
        return Err(HeaderError::BadVersion);
    }
    let total: u64 = read_be32(blob, 4) as u64;
    let struct_off: u64 = read_be32(blob, 8) as u64;
    let struct_size: u64 = read_be32(blob, 36) as u64;
    let strings_off: u64 = read_be32(blob, 12) as u64;
    let strings_size: u64 = read_be32(blob, 32) as u64;
    if total > blob.len() as u64 || struct_off + struct_size > total || strings_off + strings_size
        > total || struct_size % 4 != 0 || struct_size >= 0xFFFF_FFF0 {
        return Err(HeaderError::OutOfBounds);
    }
    let structure: &[u8] = vstd::slice::slice_subrange(
        blob,
        struct_off as usize,
        (struct_off + struct_size) as usize,
    );
    let strings: &[u8] = vstd::slice::slice_subrange(
        blob,
        strings_off as usize,
        (strings_off + strings_size) as usize,
    );
    Ok(Blocks { structure, strings })
}

/// Reads the platform parameters from a device tree.
pub fn probe_blob(blob: &[u8]) -> (r: Result<PlatformConfig, ProbeError>)
    ensures
        r == (match refusal(blob@) {
            Some(e) => Err(ProbeError::Header(e)),
            None => probe::probed(block_of(blob@, 8, 36), block_of(blob@, 12, 32)),
        }),
{
    match validate(blob) {
        Err(e) => Err(ProbeError::Header(e)),
        Ok(k) => probe_dtb(k.structure, k.strings),
    }
}

/// The device tree in the data, if its header is sound.
pub fn open_blob(blob: &[u8]) -> (r: Result<Dtb<'_>, HeaderError>)
    ensures
        match refusal(blob@) {
            Some(e) => r == Err::<Dtb, HeaderError>(e),
            None => r matches Ok(d) && d.wf() && d.block() == block_of(blob@, 8, 36) && d.strings()
                == block_of(blob@, 12, 32),
        },
{
    match validate(blob) {
        Err(e) => Err(e),
        Ok(k) => Ok(Dtb::new(k.structure, k.strings)),
    }
}

} // verus!
