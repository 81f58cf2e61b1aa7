//! Cells: the 32-bit numbers of which property values are made.
use vstd::prelude::*;
use crate::platform::bytes;
use crate::platform::bytes::read_be32;

verus! {

/// The cell at `offset`, if it is there.
pub open spec fn cell_at(data: Seq<u8>, offset: int) -> Option<u32> {
    if 0 <= offset && offset + 4 <= data.len() {
        Some(bytes::be32(data, offset))
    } else {
        None
    }
}

/// The number made of `cells` cells at `offset`: at most two, the higher one first.
pub open spec fn cells_at(data: Seq<u8>, offset: int, cells: u32) -> Option<u64> {
    if cells == 0 {
        Some(0)
    } else if cells == 1 {
        match cell_at(data, offset) {
            Some(v) => Some(v as u64),
            None => None,
        }
    } else if cells == 2 {
        match (cell_at(data, offset), cell_at(data, offset + 4)) {
            (Some(hi), Some(lo)) => Some((hi * 0x1_0000_0000 + lo) as u64),
            _ => None,
        }
    } else {
        None
    }
}

/// The offset after the attempt to read `cells` cells: past them if they could be read.
pub open spec fn offset_after(data: Seq<u8>, offset: int, cells: u32) -> int {
    if cells_at(data, offset, cells) is Some {
        offset + 4 * cells
    } else {
        offset
    }
}

/// Reads the cell at `offset`; `None` if less than four bytes are left.
pub fn read_cell_u32(data: &[u8], offset: usize) -> (r: Option<u32>)
    ensures
        r == cell_at(data@, offset as int),
{
    if data.len() >= 4 && offset <= data.len() - 4 {
        Some(read_be32(data, offset))
    } else {
        None
    }
}

/// Reads a number of `cells` cells at `offset`, and advances `offset` if it could be read.
pub fn read_cells(data: &[u8], offset: &mut usize, cells: u32) -> (r: Option<u64>)
    ensures
        r == cells_at(data@, *old(offset) as int, cells),
        *final(offset) == offset_after(data@, *old(offset) as int, cells),
{
    let len: usize = data.len();
    assert(data@.len() == len);
    match cells {
        0 => Some(0),
        1 => match read_cell_u32(data, *offset) {
            Some(v) => {
                *offset = *offset + 4;
                Some(v as u64)
            },
            None => None,
        },
        2 => match read_cell_u32(data, *offset) {
            Some(hi) => match read_cell_u32(data, *offset + 4) {
                Some(lo) => {
                    *offset = *offset + 8;
                    Some(hi as u64 * 0x1_0000_0000 + lo as u64)
                },
                None => None,
            },
            None => None,
        },
        _ => None,
    }
}

/// The offset moves exactly when a number was read, and then past its cells, which lie in the data.
pub proof fn law_offset_advances(data: Seq<u8>, offset: int, cells: u32)
    requires
        0 <= offset <= data.len(),
    ensures
        offset_after(data, offset, cells) <= data.len(),
        cells_at(data, offset, cells) is Some ==> offset_after(data, offset, cells) == offset + 4
            * cells,
        cells_at(data, offset, cells) is None ==> offset_after(data, offset, cells) == offset,
{
}

} // verus!
