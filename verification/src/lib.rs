//! Two discrete-event operating-systems simulators: a disk I/O request
//! scheduler and an MMU demand-paging simulator, together with the small
//! building blocks of a CPU-scheduler skeleton.

pub mod iosched;
pub mod iosim;
pub mod laws;
pub mod mmu;
pub mod pagers;
pub mod sched;
