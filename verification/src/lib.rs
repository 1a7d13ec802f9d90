pub mod text;
pub mod mediamtx;
pub mod number;
pub mod types;
pub mod syntax;
pub mod labels;
pub mod family;
pub mod parser;
