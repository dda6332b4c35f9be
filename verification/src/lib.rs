//! A thread-safe, in-process substitute for the process environment.
//!
//! The crate keeps an ordered mapping from byte-string keys to byte-string
//! values behind a verified exclusive lock.  The facade in [`env`] mirrors
//! the shape of the conventional environment API: raw accessors work on
//! byte strings, text accessors decode values as UTF-8 and report failures
//! through [`env::VarError`].

pub mod env;

pub use env::Env;
pub use env::EnvMap;
pub use env::VarError;
pub use env::Vars;
pub use env::VarsOs;
