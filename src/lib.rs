pub mod archive;
pub mod catalog;
pub mod laws;
pub mod opds;
pub mod path;
pub mod scanner;
