//! Typing-practice engine: typing sessions, content catalogues, snippet
//! normalisation, multiplayer race rooms and menu rules.

pub mod analysis;
pub mod app;
pub mod cache;
pub mod cli;
pub mod comments;
pub mod content;
pub mod layout;
pub mod protocol;
pub mod relay;
pub mod session;
pub mod snippet;
pub mod sources;
pub mod standings;
pub mod stats;
pub mod syntax;
pub mod text;
