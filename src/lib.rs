//! Game account linking for Discord role connections: a declarative
//! eligibility model, the metadata-record schema derived from it, and a
//! sealed transport form for OAuth bearer tokens.

pub mod game;
pub mod oauth;
pub mod schema;
pub mod token;

pub use game::{Game, Key, KeyCondition, KeyType, PutRoleConnectionInfo, UidConfig, UsernameConfig};
pub use schema::{RoleConnectionMetadataRecord, RoleConnectionMetadataRecordType};
pub use token::{decrypt_key, generate_encrypted_key, InvalidToken, TokenKeys};
