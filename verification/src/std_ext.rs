//! Small additions to the standard library that the reader leans on.

pub mod char;
pub mod str;
