pub mod credentials;
pub mod error;
pub mod guard;
pub mod handlers;
pub mod models;
pub mod token;
pub mod transform;
pub mod users;
