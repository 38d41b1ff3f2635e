//! Verified core of an application launcher: desktop-entry handling,
//! application catalogues, command splitting, the socket protocol between
//! the launcher server and its toggle client, and Windows entry cleaning.

pub mod action;
pub mod app;
pub mod args;
pub mod config;
pub mod freedesktop;
pub mod ipc;
pub mod text;
pub mod windows;
