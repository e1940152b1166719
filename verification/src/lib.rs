//! Verified core of the `nk` kernel: physical memory bookkeeping, buddy
//! and slab allocation, page tables, address-space areas and page faults,
//! scheduling queues, the device registry, the event bus and the loading
//! and linking of kernel modules.

pub mod addr;
pub mod pmr;
pub mod bounded;
pub mod kdm;
pub mod ema;
pub mod dev;
pub mod paging;
pub mod pfm;
pub mod bsa;
pub mod bua;
pub mod upa;
pub mod trap;
pub mod sched;
pub mod vma;
pub mod kmi;
pub mod soa;
pub mod arch;
pub mod ebus;
pub mod kst;

