//! The x86-64 platform.
pub mod acpi;
pub mod ap;
pub mod apic;
pub mod boot;
pub mod domain;
pub mod flags;
pub mod interrupts;
pub mod memory;
pub mod msi;
pub mod pci;
pub mod percpu;
pub mod space;
pub mod tables;
pub mod walk;
