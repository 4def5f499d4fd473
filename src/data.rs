//! The German source lists and the words each one drops.

pub mod davidak;
pub mod dwds_lemmata;
