pub mod kernelbase;
pub mod shlwapi;
