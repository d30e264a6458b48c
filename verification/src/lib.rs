pub mod engine;
pub mod error;
pub mod names;
pub mod order;
pub mod schema;
pub mod storage;
pub mod text;
pub mod value;
pub mod index;
