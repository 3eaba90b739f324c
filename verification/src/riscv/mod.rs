//! The RISC-V platform: translation tables, firmware calls and device trees.
pub mod ap;
pub mod boot;
pub mod console;
pub mod csr;
pub mod domain;
pub mod entry;
pub mod error;
pub mod fdt;
pub mod init;
pub mod mappings;
pub mod paging;
pub mod pci;
pub mod percpu;
pub mod platform;
pub mod raise;
pub mod range;
pub mod satp;
pub mod sbi;
pub mod survey;
pub mod table;
pub mod trap;
pub mod tree;
