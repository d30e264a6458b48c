pub mod disk;
pub mod file;
pub mod key;
pub mod manifest;
pub mod memory;
