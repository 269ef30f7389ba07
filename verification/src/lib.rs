//! Verified logic behind two editor features: the pull-request chip that
//! follows the current branch, and the thread switcher's filtering and
//! selection rules.
pub mod auth;
pub mod github;
pub mod remote;
pub mod row;
pub mod state;
pub mod switcher;
pub mod text;
