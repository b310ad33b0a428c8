pub mod bytecode;
pub mod chunk;
pub mod line;
pub mod obj;
pub mod value;

pub use bytecode::OpCode;

