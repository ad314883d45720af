pub mod addr;
pub mod fs;
pub mod fs_laws;
pub mod runtime;

pub use addr::{Addr, Ip};
pub use runtime::{Context, Handle, LocalHandle, Runtime};
