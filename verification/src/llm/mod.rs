//! Translation by language models: languages, prompts, providers and their replies.
//!
//! What is decided here needs no network: which endpoint a provider has, what it is asked,
//! what its reply means, and which provider is tried next.

pub mod error;
pub mod json;
pub mod lang;
pub mod lang_laws;
pub mod laws;
pub mod models;
pub mod prompt;
pub mod providers;
pub mod reply;
pub mod translator;
