//! What the kernel's Makefiles build, and under which CONFIG symbols.
pub mod expr;
pub mod maps;
pub mod makefile;
pub mod makefile_laws;
pub mod relative;
