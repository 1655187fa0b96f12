//! The verified core of an IMAP mail server for language-model assistants.
//!
//! Everything that decides, parses or renders lives here and carries a
//! contract; sockets, files and the tool protocol live in the program around
//! the library.

pub mod config;
pub mod divergence;
pub mod email;
pub mod html;
pub mod imap_client;
pub mod json;
pub mod json_reader;
pub mod lookup;
pub mod mail;
pub mod oauth2;
pub mod reauth;
pub mod report;
pub mod text;
pub mod time;
pub mod token_state;
pub mod tools;
