//! A first-fit free-list allocator over a fixed address range.
//!
//! The registry of free blocks ([`hole::HoleList`]) keeps its holes in ascending
//! address order and merges neighbours as soon as they touch. The [`heap::Heap`]
//! owns one registry together with the bounds of the region it manages, and
//! normalises every request before the registry sees it.
//!
//! The library deals in addresses: it keeps the holes in a table of its own,
//! hands out and takes back addresses, and never touches the memory behind
//! them.
//!
//! What the operations do is stated over the sequence of holes. [`carve`] and
//! [`coalesce`] prove what taking a block and giving one back do to that
//! sequence, and [`ledger`] follows the free bytes, the bytes handed out and
//! the bytes given up through any run of requests.

pub mod align;
pub mod carve;
pub mod coalesce;
pub mod heap;
pub mod hole;
pub mod layout;
pub mod ledger;
pub mod total;
