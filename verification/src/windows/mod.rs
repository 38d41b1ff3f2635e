//! Applications that Windows knows of: uninstall registry entries and
//! Start Menu shortcuts.

pub mod app_finder;
