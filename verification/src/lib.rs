//! Reconciles two textual reports of a process's virtual memory layout: the
//! table of regions known to a managed runtime's allocator and the operating
//! system's memory map as printed by a native debugger.
//!
//! Each report is read into a collection of regions keyed by start address.
//! The two collections are then compared: what the memory map shows and the
//! runtime does not know may be a leak or a native allocation, and what the
//! runtime knows and the memory map does not show lies inside a larger region
//! of the map.

pub mod address;
pub mod binary;
pub mod decimal;
pub mod hex;
pub mod maddress;
pub mod numeral;
pub mod reconcile;
pub mod region;
pub mod scale;
pub mod size;
pub mod text;

pub use crate::address::parse_address_memory_regions;
pub use crate::hex::parse_hex;
pub use crate::maddress::parse_maddress_memory_regions;
pub use crate::reconcile::reconcile;
pub use crate::reconcile::regions_only_in;
pub use crate::reconcile::total_size;
pub use crate::reconcile::unaccounted_regions;
pub use crate::reconcile::Reconciliation;
pub use crate::region::MemoryRegion;
pub use crate::size::bytes_to_human_readable;
pub use crate::size::parse_human_readable_size;
pub use crate::size::SizeError;
