//! Tools for shrinking a Linux kernel configuration from observed module usage.
pub mod gather;
pub mod gcov;
pub mod kbuild;
pub mod kconfig;
pub mod kminimize;
pub mod names;
pub mod number;
pub mod paths;
pub mod reach;
pub mod split;
pub mod text;
pub mod text_laws;
