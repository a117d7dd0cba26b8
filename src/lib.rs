//! An emulator for the CRZ64I load/store register machine: a verified
//! instruction decoder, execution unit, label resolver and run loop.
pub mod decode;
pub mod labels;
pub mod laws;
pub mod machine;
pub mod text;
