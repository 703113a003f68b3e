pub mod conf;
pub mod parse;
pub mod table;
pub mod text;
