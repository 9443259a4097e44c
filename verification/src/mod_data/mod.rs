pub mod mod_id;
pub mod mod_entry;
pub mod db;
pub mod profile;
pub mod parser;
pub mod scanner;
