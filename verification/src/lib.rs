//! The logic of a Wi-Fi manager for Linux: it shows the networks in range and joins them
//! through `wpa_cli`, run under `sudo`.
//!
//! Nothing here runs a process, starts a thread, reads a file or draws.  Background work is
//! a job that says what is to be done next and is handed what came of it (`connect`, `job`);
//! the user interface is a state with what it shows and how it changes (`wifi_app`); the
//! output of `wpa_cli` is text that is read (`network`, `status`), and the credentials file is
//! bytes that are read and written (`bytes`, `passwords`).
//!
//! Each function states what it returns in its contract.  What holds of several functions
//! together stands in the proof functions whose names begin with `law_`.

pub mod action;
pub mod bytes;
pub mod command;
pub mod connect;
pub mod job;
pub mod lang;
pub mod network;
pub mod number;
pub mod passwords;
pub mod signal;
pub mod status;
pub mod sudo;
pub mod text;
pub mod wifi_app;
