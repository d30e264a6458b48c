pub mod manifest;
pub mod record;
pub mod schema_file;
pub mod table_file;
