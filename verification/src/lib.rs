//! Secret Santa pairings from a small instruction language: a line parser, a
//! registry of participants with unique names, a most-constrained-first
//! assignment engine, and a codec that seals each pairing for hand-off.

pub mod crypto;
pub mod error;
pub mod exchange;
pub mod pairing;
pub mod participant;
pub mod secretsanta;

pub use error::SecretSantaError;
pub use exchange::get_secret_santas;
pub use pairing::{decrypt_secret_santa, encrypt_secret_santa, EncryptedSecretSanta};
pub use participant::{parse_instruction, Participant, ParticipantView};
pub use secretsanta::SecretSanta;
