pub mod compiler;
pub mod grammar;
pub mod scanner;
pub mod token;
