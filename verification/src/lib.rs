pub mod chars;
pub mod cursor;
pub mod laws;
pub mod lexer;
pub mod scan;
pub mod token;
