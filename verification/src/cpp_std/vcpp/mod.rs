//! C++ standard library layouts of MSVC.

pub mod string;
pub mod vector;
