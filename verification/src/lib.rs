pub mod cli;
pub mod compiler;
pub mod reporting;
pub mod stdlib;
pub mod text;
pub mod vm;
