//! The commands of the engine, each a function on a repository and a
//! working directory.

pub mod add;
pub mod branch;
pub mod checkout;
pub mod commit;
pub mod init;
pub mod log;
pub mod merge;
pub mod rm;
pub mod status;
