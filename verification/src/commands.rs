pub mod echo;
pub mod get;
pub mod ping;
pub mod set;
