//! The instruction programs and the container that carries them.
pub mod zip;
pub mod machine;
