pub mod value;
pub mod patch;
pub mod wire;
pub mod patch_log;
pub mod patch_helpers;
pub mod database;
pub mod request;
