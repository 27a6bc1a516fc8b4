pub mod text;
pub mod chat;
pub mod search;
pub mod srd;
pub mod routing;
pub mod notes;
pub mod usage;
pub mod api;
pub mod auth;
pub mod storage;
