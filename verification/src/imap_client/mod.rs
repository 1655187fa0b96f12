//! The mail client: what it asks of the server, and what it makes of the
//! answers.

pub mod fetch;
pub mod filter;
pub mod folders;
pub mod order;
pub mod query;
pub mod removal;
pub mod session;
pub mod thread;
pub mod uids;
pub mod util;
