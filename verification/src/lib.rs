//! Core services of a small Unix-like kernel, written with machine-checked
//! contracts. The centrepiece is the buddy-system physical frame allocator:
//! it hands out power-of-two blocks of pages, keeps per-order free lists in
//! an arena of metadata records, and is proved to keep those lists well
//! formed, to return aligned in-range blocks, and to never hand out
//! overlapping memory. Around it stand the kernel's containers and small
//! services: bitfields, hashmaps, pipes, sockets, devices, partition
//! tables, routing and the procfs.

pub mod bitfield;
pub mod buddy;
pub mod byteorder;
pub mod device;
pub mod errno;
pub mod hashmap;
pub mod mbr;
pub mod net;
pub mod pipe;
pub mod procfs;
pub mod rsdt;
pub mod socket;
pub mod syscall;
pub mod time;
