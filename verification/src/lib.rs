//! Record-level logic of an encrypted serial console.

pub mod back_to_back;
pub mod bridge;
pub mod bridge_laws;
pub mod buffering_laws;
pub mod cli;
pub mod decrypt;
pub mod decrypt_laws;
pub mod encrypt;
pub mod encrypt_laws;
pub mod encrypt_stream;
pub mod laws;
pub mod line_laws;
pub mod lines;
pub mod provision;
pub mod random;
pub mod record;
pub mod serial;
pub mod serial_laws;
