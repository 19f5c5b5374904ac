//! Decrypts captured TLS streams with logged session secrets and turns the plaintext into
//! structured records.

pub mod aead;
pub mod bytes;
pub mod cli;
pub mod connection;
pub mod ek_output;
pub mod fields;
pub mod kdf;
pub mod keylog;
pub mod keylog_source;
pub mod lua;
pub mod memstats;
pub mod net;
pub mod orchestrator;
pub mod pcap_input;
pub mod plugin_loader;
pub mod reassembly;
pub mod rotation;
pub mod text;
pub mod time;
pub mod tls12;
pub mod tls13;
