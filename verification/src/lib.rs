pub mod cli;
pub mod constants;
pub mod content;
pub mod decimal;
pub mod digest;
pub mod history;
pub mod ipc;
pub mod mime;
pub mod session;
pub mod state;
pub mod text;
