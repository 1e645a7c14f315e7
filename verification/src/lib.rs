//! APK Vault: a local store of API keys, encrypted at rest with AES-256-GCM,
//! with passphrase-protected backups.

pub mod backup;
pub mod clock;
pub mod crypto;
pub mod db;
pub mod keychain;
pub mod order;
pub mod text;
