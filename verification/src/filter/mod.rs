//! Set-membership filters.

pub mod bloom;
