//! Sample declarations of the shapes the engine extracts: a struct with an inherent
//! and a trait implementation, a free function and a module; and an account
//! service with sessions. They are ordinary verified code.

pub mod shapes;
pub mod utils;
pub mod accounts;
