//! The device side of a provider host: what each phone says, and what to answer it.

pub mod adb_bridge;
pub mod backend_android;
pub mod backend_ios;
pub mod backend_mock;
pub mod clock;
pub mod device;
pub mod files;
pub mod install;
pub mod options;
pub mod order;
pub mod pointer;
pub mod property;
pub mod provider;
pub mod table;
pub mod text;
pub mod video;
pub mod wire;
