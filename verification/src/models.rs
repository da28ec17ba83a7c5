pub mod blog;
pub mod page;
