pub mod align;
pub mod arch;
pub mod bits;
pub mod bytes;
pub mod crc;
pub mod dma;
pub mod frames;
pub mod fs;
pub mod hex;
pub mod memory;
pub mod net;
pub mod riscv;
pub mod smp;
pub mod tcp;
pub mod virtio;
pub mod window;
pub mod x86;
