//! What holds of the library as a whole.

pub mod arrangement;
pub mod changes;
pub mod files;
pub mod growth;
pub mod inputs;
pub mod layout;
pub mod naming;
pub mod sharing;
pub mod text;
pub mod types;
