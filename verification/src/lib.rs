//! A general-purpose memory allocator with size-segregated free lists.
//!
//! Memory comes from the system in segments. A segment is a row of chunks, each with a header in
//! front, and chunks that border on each other are never both free. Free chunks of less than 256
//! bytes are kept in a list for each size, larger ones in bitwise tries of lists. One free chunk,
//! the designated victim, is what small requests are preferably cut from, and the chunk at the end
//! of the newest segment, the top chunk, is what is cut last.
//!
//! The library decides and keeps the books; it never touches the memory that it manages. The words
//! of chunk headers are kept beside it, and the system is asked by the caller: where a request
//! wants more memory, or where memory can be given back, the library says so and takes the
//! system's reply.
use vstd::prelude::*;

pub mod arith;
pub mod index;
pub mod memory;
pub mod chunk;
pub mod lists;
pub mod state;
pub mod sizes;
pub mod bins;
pub mod trees;
pub mod unlink;
pub mod relink;
pub mod search;
pub mod phys;
pub mod words;
pub mod segments;
pub mod freelists;
pub mod carve;
pub mod malloc;
pub mod join;
pub mod free;
pub mod segwalk;
pub mod totals;
pub mod regions;
pub mod grow;
pub mod release;
pub mod trim;
pub mod live;
pub mod requests;
pub mod walks;
pub mod find;
pub mod checks;
pub mod checked;
pub mod clients;
pub mod places;
pub mod laws;
pub mod serving;
pub mod returning;
pub mod growing;
pub mod giving;
pub mod measures;
pub mod aligning;
pub mod telling;
pub mod shapes;

pub use crate::free::Due;
pub use crate::malloc::Outcome;
pub use crate::memory::Segment;
pub use crate::release::Reply;
pub use crate::requests::{AllocErr, Grant, Layout};
pub use crate::state::Dlmalloc;

verus! {

} // verus!
