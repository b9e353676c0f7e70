//! A temporary-mail service: the SMTP dialogue, MIME body extraction,
//! transfer decodings and mailbox rules, verified with Verus.
pub mod api;
pub mod config;
pub mod models;
pub mod smtp;
pub mod tasks;
pub mod text;
