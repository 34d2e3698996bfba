//! The user directory of a catalog service: user records linked to an identity provider,
//! listed with filters and keyset pagination, upserted, soft-deleted and searched.

pub mod types;
pub mod text;
pub mod user;
pub mod order;
pub mod token;
pub mod table;
pub mod laws;
