//! A virtual filesystem layer: mounted filesystems gathered into one namespace,
//! path resolution with permission checks and symbolic links, and the file
//! operations built on it, together with the containers and integer utilities
//! that the layer rests on.

pub mod binary_tree;
pub mod bitfield;
pub mod buffer;
pub mod data_struct;
pub mod device;
pub mod bytes;
pub mod errno;
pub mod exec;
pub mod file;
pub mod filesystem;
pub mod id_allocator;
pub mod math;
pub mod mountpoint;
pub mod path;
pub mod pipe;
pub mod pool;
pub mod registry;
pub mod resolve;
pub mod select;
pub mod syscall;
pub mod tmpfs;
pub mod util;
pub mod vfs;
