//! Loader for key/value configuration files in the conventional `.env`
//! syntax: a line-based parser for `KEY=value` declarations with quoted
//! values and escaped quotes, and a loader that applies the parsed entries
//! to an environment store under an override or preserve policy.

pub mod error;
pub mod parser;
pub mod store;
pub mod text;
pub mod vars;

pub use error::EnvroError;
pub use parser::parse;
pub use store::{load_into, should_apply, MemEnv, Policy};
pub use vars::EnvroVars;
