//! Startup configuration, as plain values.
//!
//! The values are environment-sourced by the program around the library;
//! absence of the API identifier or secret is a startup-fatal error there,
//! so a constructed `Config` always carries both.

use vstd::prelude::*;

verus! {

/// Everything the program needs to connect and to find its files.
pub struct Config {
    /// The API identifier of the account's application.
    pub api_id: i32,
    /// The API secret of the account's application.
    pub api_hash: String,
    /// The account's phone number, if configured; otherwise it is prompted
    /// for during sign-in.
    pub phone_number: Option<String>,
    /// Where the transport session is persisted.
    pub session_path: String,
    /// Where the duplicate index is persisted.
    pub state_path: String,
}

} // verus!
