//! C++ standard library layouts of GCC.

pub mod string;
