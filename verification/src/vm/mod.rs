pub mod vm;


