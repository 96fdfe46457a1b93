//! Package identity parsing and the pending-set state machine of a
//! repository synchronisation daemon.
pub mod package;
pub mod repo;
pub mod text;
