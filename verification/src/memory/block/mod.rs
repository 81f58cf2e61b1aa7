//! The block allocator: blocks of a few fixed sizes, cut from pages.
//!
//! Blocks have `2^3` to `2^12` bytes. The free blocks of a size form a list that is threaded through
//! the blocks themselves: the first word of a free block holds the address of the next one, or zero.
//! The first word of a page with blocks of less than a page counts the blocks of the page that are
//! in use; when the count falls to zero, the page goes back to the frame allocator.
pub mod allocator;
pub mod laws;
pub mod list;
pub mod pool;
pub mod shape;
