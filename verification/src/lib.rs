//! Verified core of the vanadinite RISC-V microkernel.
pub mod bits;
pub mod byteorder;
pub mod paging;
pub mod phys;
pub mod region;
pub mod address_map;
pub mod utils;
pub mod cpu;
pub mod arch;
pub mod trap;
pub mod syscall;
pub mod task;
pub mod io;
pub mod le;
pub mod elf;
pub mod fat;
pub mod fdt;
pub mod mem;
pub mod manager;
pub mod placement;
pub mod boot;
pub mod scheduler;
pub mod capabilities;
pub mod tasks;
pub mod plic;
pub mod user;
